//! What the tables of a document list: what was measured, all of it, and each
//! thing once, as it was seen first.

use crate::storage::document::{
    cell_entries, clock_of, count_entry, digest_entry, has_key, same_key, seed_form, table_of,
    with_entries, with_samples, DocumentCell, EntryModel, FactModel,
};
use crate::storage::grammar_laws::hex_digit;
use crate::storage::model::{
    has_price, priced_in, remote_of, same_price, sync_of, with_price, Priced,
};
use crate::storage::scenarios::facts::{Fact, Unit};
use crate::storage::stats::{tail_name, tail_of, TailKind};
use crate::text::{hex_char, hexadecimal, zeros};
use vstd::prelude::*;

verus! {

/// Whether an entry says what a row measured: of its library, its scale and its
/// source, one of the nine counts under its name and unit, or the digest.
pub open spec fn is_measured_by(e: EntryModel, cell: DocumentCell) -> bool {
    let i = cell.invariants.invariants;
    &&& e.library == cell.backend@
    &&& e.scale == cell.scale
    &&& e.source == cell.source@
    &&& {
        ||| e.name == "output_bytes"@ && e.unit == "bytes"@ && i.output_bytes is Some && e.value == FactModel::Count(
            i.output_bytes->0,
        )
        ||| e.name == "allocated_bytes"@ && e.unit == "bytes"@ && i.allocated_bytes is Some && e.value == FactModel::Count(
            i.allocated_bytes->0,
        )
        ||| e.name == "filesystem_entries"@ && e.unit == "count"@ && i.filesystem_entries is Some && e.value == FactModel::Count(
            i.filesystem_entries->0,
        )
        ||| e.name == "directories"@ && e.unit == "count"@ && i.directories is Some && e.value == FactModel::Count(
            i.directories->0,
        )
        ||| e.name == "tiles_produced"@ && e.unit == "count"@ && i.tiles_produced is Some && e.value == FactModel::Count(
            i.tiles_produced->0,
        )
        ||| e.name == "root_entries"@ && e.unit == "count"@ && i.root_entries is Some && e.value == FactModel::Count(
            i.root_entries->0,
        )
        ||| e.name == "leaves"@ && e.unit == "count"@ && i.leaves is Some && e.value == FactModel::Count(
            i.leaves->0,
        )
        ||| e.name == "requests"@ && e.unit == "count"@ && i.requests is Some && e.value == FactModel::Count(
            i.requests->0,
        )
        ||| e.name == "request_bytes"@ && e.unit == "bytes"@ && i.request_bytes is Some && e.value == FactModel::Count(
            i.request_bytes->0,
        )
        ||| e.name == "artefact_digest"@ && e.unit == "sha256"@ && i.artefact_digest is Some
            && e.value == FactModel::Digest(i.artefact_digest->0@)
    }
}

/// One of the ten entries of a row says what the row measured, and what it measured
/// is one of them.
proof fn lemma_entries_are_measured(cell: DocumentCell, e: EntryModel)
    ensures
        is_measured_by(e, cell) <==> exists|k: int|
            0 <= k < 10 && #[trigger] cell_entries(cell)[k] == Some(e),
{
    let all = cell_entries(cell);
    let i = cell.invariants.invariants;
    assert(all[0] == count_entry(cell, Fact::OutputBytes));
    assert(all[1] == count_entry(cell, Fact::AllocatedBytes));
    assert(all[2] == count_entry(cell, Fact::FilesystemEntries));
    assert(all[3] == count_entry(cell, Fact::Directories));
    assert(all[4] == count_entry(cell, Fact::TilesProduced));
    assert(all[5] == digest_entry(cell));
    assert(all[6] == count_entry(cell, Fact::RootEntries));
    assert(all[7] == count_entry(cell, Fact::Leaves));
    assert(all[8] == count_entry(cell, Fact::Requests));
    assert(all[9] == count_entry(cell, Fact::RequestBytes));
    if is_measured_by(e, cell) {
        if e.name == "output_bytes"@ && i.output_bytes is Some && all[0] == Some(e) {
            assert(all[0] == Some(e));
        }
        if e.name == "allocated_bytes"@ && i.allocated_bytes is Some && all[1] == Some(e) {
            assert(all[1] == Some(e));
        }
        if e.name == "filesystem_entries"@ && i.filesystem_entries is Some && all[2] == Some(e) {
            assert(all[2] == Some(e));
        }
        if e.name == "directories"@ && i.directories is Some && all[3] == Some(e) {
            assert(all[3] == Some(e));
        }
        if e.name == "tiles_produced"@ && i.tiles_produced is Some && all[4] == Some(e) {
            assert(all[4] == Some(e));
        }
        if e.name == "artefact_digest"@ && i.artefact_digest is Some && all[5] == Some(e) {
            assert(all[5] == Some(e));
        }
        if e.name == "root_entries"@ && i.root_entries is Some && all[6] == Some(e) {
            assert(all[6] == Some(e));
        }
        if e.name == "leaves"@ && i.leaves is Some && all[7] == Some(e) {
            assert(all[7] == Some(e));
        }
        if e.name == "requests"@ && i.requests is Some && all[8] == Some(e) {
            assert(all[8] == Some(e));
        }
        if e.name == "request_bytes"@ && i.request_bytes is Some && all[9] == Some(e) {
            assert(all[9] == Some(e));
        }
    }
    if exists|k: int| 0 <= k < 10 && #[trigger] all[k] == Some(e) {
        let k = choose|k: int| 0 <= k < 10 && #[trigger] all[k] == Some(e);
        assert(k == 0 || k == 1 || k == 2 || k == 3 || k == 4 || k == 5 || k == 6 || k == 7 || k == 8 || k == 9);
    }
}

/// What the table holds after some entries of a row.
proof fn lemma_with_entries_holds(
    table: Seq<EntryModel>,
    entries: Seq<Option<EntryModel>>,
    n: int,
    x: int,
)
    requires
        0 <= n <= entries.len(),
        0 <= x < with_entries(table, entries, n).len(),
    ensures
        table.len() <= with_entries(table, entries, n).len(),
        forall|i: int| 0 <= i < table.len() ==> with_entries(table, entries, n)[i] == table[i],
        x >= table.len() ==> exists|k: int|
            0 <= k < n && #[trigger] entries[k] == Some(with_entries(table, entries, n)[x]),
        x >= table.len() ==> !has_key(table, with_entries(table, entries, n)[x]),
    decreases n,
{
    if n > 0 {
        let before = with_entries(table, entries, n - 1);
        let after = with_entries(table, entries, n);
        lemma_grows(table, entries, n - 1);
        if x < before.len() {
            lemma_with_entries_holds(table, entries, n - 1, x);
            if x >= table.len() {
                let k = choose|k: int|
                    0 <= k < n - 1 && #[trigger] entries[k] == Some(before[x]);
                assert(entries[k] == Some(after[x]));
            }
        } else {
            assert(entries[n - 1] == Some(after[x]));
            if has_key(table, after[x]) {
                let i = choose|i: int| 0 <= i < table.len() && same_key(#[trigger] table[i], after[x]);
                assert(before[i] == table[i]);
                assert(has_key(before, after[x]));
            }
        }
    }
}

/// A table only grows.
proof fn lemma_grows(table: Seq<EntryModel>, entries: Seq<Option<EntryModel>>, n: int)
    requires
        0 <= n <= entries.len(),
    ensures
        table.len() <= with_entries(table, entries, n).len(),
        forall|i: int| 0 <= i < table.len() ==> with_entries(table, entries, n)[i] == table[i],
    decreases n,
{
    if n > 0 {
        lemma_grows(table, entries, n - 1);
    }
}

/// Every entry of the table says what one of the rows measured, and no row before it
/// measured that thing.
pub proof fn law_table_says_what_was_measured_first(cells: Seq<DocumentCell>, n: int, x: int)
    requires
        0 <= n <= cells.len(),
        0 <= x < table_of(cells, n).len(),
    ensures
        exists|c: int|
            0 <= c < n && is_measured_by(table_of(cells, n)[x], #[trigger] cells[c]) && forall|
                d: int,
                e: EntryModel,
            |
                0 <= d < c && is_measured_by(e, #[trigger] cells[d]) ==> !(e.library
                    == table_of(cells, n)[x].library && e.scale == table_of(cells, n)[x].scale
                    && e.source == table_of(cells, n)[x].source && #[trigger] e.name
                    == table_of(cells, n)[x].name),
    decreases n,
{
    let before = table_of(cells, n - 1);
    let entries = cell_entries(cells[n - 1]);
    let after = table_of(cells, n);
    lemma_grows(before, entries, 10);
    lemma_with_entries_holds(before, entries, 10, x);
    if x < before.len() {
        law_table_says_what_was_measured_first(cells, n - 1, x);
        let c = choose|c: int|
            0 <= c < n - 1 && is_measured_by(before[x], #[trigger] cells[c]) && forall|
                d: int,
                e: EntryModel,
            |
                0 <= d < c && is_measured_by(e, #[trigger] cells[d]) ==> !(e.library
                    == before[x].library && e.scale == before[x].scale && e.source
                    == before[x].source && #[trigger] e.name == before[x].name);
        assert(is_measured_by(after[x], cells[c]));
    } else {
        lemma_entries_are_measured(cells[n - 1], after[x]);
        assert(is_measured_by(after[x], cells[n - 1]));
        assert forall|d: int, e: EntryModel| 0 <= d < n - 1 && is_measured_by(e, #[trigger] cells[d])
            implies !(e.library == after[x].library && e.scale == after[x].scale && e.source
            == after[x].source && #[trigger] e.name == after[x].name) by {
            law_table_misses_nothing(cells, n - 1, d, e);
            let i = choose|i: int|
                0 <= i < before.len() && (#[trigger] before[i]).library == e.library
                    && before[i].scale == e.scale && before[i].source == e.source && before[i].name
                    == e.name;
            if e.library == after[x].library && e.scale == after[x].scale && e.source
                == after[x].source && e.name == after[x].name {
                assert(same_key(before[i], after[x]));
            }
        }
    }
}

/// Everything that a row measured is in the table, under the row's library, scale and
/// source.
pub proof fn law_table_misses_nothing(cells: Seq<DocumentCell>, n: int, c: int, e: EntryModel)
    requires
        0 <= c < n <= cells.len(),
        is_measured_by(e, cells[c]),
    ensures
        exists|x: int|
            0 <= x < table_of(cells, n).len() && (#[trigger] table_of(cells, n)[x]).library
                == e.library && table_of(cells, n)[x].scale == e.scale && table_of(cells, n)[x].source
                == e.source && table_of(cells, n)[x].name == e.name,
    decreases n,
{
    lemma_entries_are_measured(cells[c], e);
    let k = choose|k: int| 0 <= k < 10 && #[trigger] cell_entries(cells[c])[k] == Some(e);
    crate::storage::document::law_table_has_each_thing_once(cells, n, c, k);
    let table = table_of(cells, n);
    let x = choose|x: int| 0 <= x < table.len() && same_key(#[trigger] table[x], e);
    assert(table[x].library == e.library && table[x].scale == e.scale && table[x].source == e.source
        && table[x].name == e.name);
}

/// What is priced was measured: a remote store by the requests and the bytes of a
/// row that has both, a copy by the entries of a row that has them.
pub proof fn law_price_rests_on_its_row(cells: Seq<DocumentCell>, n: int, x: int)
    requires
        0 <= n <= cells.len(),
        0 <= x < priced_in(cells, n).len(),
    ensures
        exists|c: int|
            0 <= c < n && priced_in(cells, n)[x].library == (#[trigger] cells[c]).backend@
                && priced_in(cells, n)[x].scale == cells[c].scale && (match priced_in(
                cells,
                n,
            )[x].priced {
                Priced::Remote { requests, bytes } => cells[c].invariants.invariants.requests
                    == Some(requests) && cells[c].invariants.invariants.request_bytes == Some(
                    bytes,
                ),
                Priced::Sync { entries } => cells[c].invariants.invariants.filesystem_entries
                    == Some(entries),
            }),
{
    crate::storage::model::law_only_the_measured_is_priced(cells, n, x, x);
    let c = choose|c: int|
        0 <= c < n && (remote_of(#[trigger] cells[c]) == Some(priced_in(cells, n)[x]) || sync_of(
            cells[c],
        ) == Some(priced_in(cells, n)[x]));
    assert(priced_in(cells, n)[x].library == cells[c].backend@);
}

/// Every row that counted requests and their bytes is priced for a remote store, and
/// every row that counted entries is priced for a copy, each library and scale once.
pub proof fn law_no_price_is_missed(cells: Seq<DocumentCell>, n: int, c: int)
    requires
        0 <= c < n <= cells.len(),
    ensures
        cells[c].invariants.invariants.requests is Some
            && cells[c].invariants.invariants.request_bytes is Some ==> exists|x: int|
            0 <= x < priced_in(cells, n).len() && (#[trigger] priced_in(cells, n)[x]).library
                == cells[c].backend@ && priced_in(cells, n)[x].scale == cells[c].scale
                && priced_in(cells, n)[x].priced is Remote,
        cells[c].invariants.invariants.filesystem_entries is Some ==> exists|x: int|
            0 <= x < priced_in(cells, n).len() && (#[trigger] priced_in(cells, n)[x]).library
                == cells[c].backend@ && priced_in(cells, n)[x].scale == cells[c].scale
                && priced_in(cells, n)[x].priced is Sync,
    decreases n,
{
    let before = priced_in(cells, n - 1);
    let (remote, sync) = (remote_of(cells[n - 1]), sync_of(cells[n - 1]));
    let half = with_price(before, remote);
    let after = priced_in(cells, n);
    assert forall|i: int| 0 <= i < before.len() implies after[i] == before[i] by {}
    assert forall|i: int| 0 <= i < half.len() implies after[i] == half[i] by {}
    if c < n - 1 {
        law_no_price_is_missed(cells, n - 1, c);
        let i = cells[c].invariants.invariants;
        if i.requests is Some && i.request_bytes is Some {
            let x = choose|x: int|
                0 <= x < before.len() && (#[trigger] before[x]).library == cells[c].backend@
                    && before[x].scale == cells[c].scale && before[x].priced is Remote;
            assert(after[x] == before[x]);
        }
        if i.filesystem_entries is Some {
            let x = choose|x: int|
                0 <= x < before.len() && (#[trigger] before[x]).library == cells[c].backend@
                    && before[x].scale == cells[c].scale && before[x].priced is Sync;
            assert(after[x] == before[x]);
        }
    } else {
        if let Some(e) = remote {
            if has_price(before, e) {
                let x = choose|x: int| 0 <= x < before.len() && same_price(#[trigger] before[x], e);
                assert(after[x] == before[x]);
            } else {
                assert(half[before.len() as int] == e);
                assert(after[before.len() as int] == e);
            }
        }
        if let Some(e) = sync {
            if has_price(half, e) {
                let x = choose|x: int| 0 <= x < half.len() && same_price(#[trigger] half[x], e);
                assert(after[x] == half[x]);
            } else {
                assert(after[half.len() as int] == e);
            }
        }
    }
}

/// No library and scale is priced twice for one thing.
pub proof fn law_nothing_is_priced_twice(cells: Seq<DocumentCell>, n: int, a: int, b: int)
    requires
        0 <= n <= cells.len(),
        0 <= a < b < priced_in(cells, n).len(),
    ensures
        priced_in(cells, n)[a].library != priced_in(cells, n)[b].library || priced_in(cells, n)[a].scale
            != priced_in(cells, n)[b].scale || (priced_in(cells, n)[a].priced is Remote)
            != (priced_in(cells, n)[b].priced is Remote),
{
    crate::storage::model::law_only_the_measured_is_priced(cells, n, a, b);
}

/// A tail is a p99 from a hundred samples on, and the greatest of fewer; of none there
/// is no tail.
pub proof fn law_tail_is_a_p99_from_a_hundred_samples(n: nat)
    ensures
        n == 0 <==> tail_of(n) is None,
        0 < n < 100 <==> tail_of(n) == Some(TailKind::Max),
        n >= 100 <==> tail_of(n) == Some(TailKind::P99),
        tail_name(TailKind::Max) == "max"@ && tail_name(TailKind::P99) == "p99"@,
{
}

/// A clock is too coarse only for times that were taken: for any other unit, and where
/// there are no samples, nothing is said of it, and nothing of their variation.
pub proof fn law_clock_counts_for_times_alone(
    saturated: Option<bool>,
    note: Option<Seq<char>>,
    unit: Unit,
    samples: nat,
)
    ensures
        samples > 0 && (unit == Unit::Microseconds || unit == Unit::Milliseconds) ==> clock_of(
            saturated,
            unit,
            samples,
        ) == saturated,
        !(samples > 0 && (unit == Unit::Microseconds || unit == Unit::Milliseconds)) ==> clock_of(
            saturated,
            unit,
            samples,
        ) is None,
        samples > 0 ==> with_samples(note, samples) == note,
        samples == 0 ==> with_samples(note, samples) is None,
{
}

/// The number that hexadecimal digits spell.
pub open spec fn hex_read(s: Seq<char>) -> int
    decreases s.len(),
{
    if s.len() == 0 {
        0
    } else {
        16 * hex_read(s.drop_last()) + match hex_digit(s.last()) {
            Some(d) => d,
            None => 0,
        }
    }
}

/// What is spelled in hexadecimal reads back, and takes no more digits than it needs.
proof fn lemma_hex_reads(n: nat, k: nat, bound: nat)
    requires
        bound == sixteen_to(k),
        n < bound,
    ensures
        hex_read(hexadecimal(n)) == n,
        0 < hexadecimal(n).len(),
        k > 0 ==> hexadecimal(n).len() <= k,
    decreases n,
{
    let all = hexadecimal(n);
    if n < 16 {
        assert(all.drop_last() =~= Seq::empty());
        assert(hex_read(all.drop_last()) == 0);
        assert(hex_digit(hex_char(n)) == Some(n as int));
        assert(all.last() == hex_char(n));
        assert(hex_read(all) == 16 * hex_read(all.drop_last()) + n);
    } else {
        if k > 0 {
            lemma_hex_reads(n / 16, (k - 1) as nat, sixteen_to((k - 1) as nat));
        }
        assert(all.drop_last() =~= hexadecimal(n / 16));
        assert(hex_digit(hex_char(n % 16)) == Some((n % 16) as int));
        assert(all.last() == hex_char(n % 16));
        assert(hex_read(all) == 16 * hex_read(all.drop_last()) + n % 16);
    }
}

/// Sixteen to a power.
spec fn sixteen_to(k: nat) -> nat
    decreases k,
{
    if k == 0 {
        1
    } else {
        16 * sixteen_to((k - 1) as nat)
    }
}

/// Zeros in front add nothing.
proof fn lemma_hex_zeros(n: nat, s: Seq<char>)
    ensures
        hex_read(zeros(n) + s) == hex_read(s),
    decreases n + s.len(),
{
    let all = zeros(n) + s;
    if s.len() > 0 {
        lemma_hex_zeros(n, s.drop_last());
        assert(all.drop_last() =~= zeros(n) + s.drop_last());
    } else if n > 0 {
        lemma_hex_zeros((n - 1) as nat, s);
        assert(all.drop_last() =~= zeros((n - 1) as nat) + s);
    } else {
        assert(all =~= s);
    }
}

/// A seed is written as `0x` and sixteen hexadecimal digits, which read back as it.
pub proof fn law_seed_is_sixteen_digits(seed: u64)
    ensures
        seed_form(seed).len() == 18,
        seed_form(seed)[0] == '0' && seed_form(seed)[1] == 'x',
        hex_read(seed_form(seed).skip(2)) == seed,
{
    reveal_strlit("0x");
    reveal_with_fuel(sixteen_to, 17);
    assert(sixteen_to(16) == 0x1_0000_0000_0000_0000);
    lemma_hex_reads(seed as nat, 16, sixteen_to(16));
    let digits = hexadecimal(seed as nat);
    let pad = (16 - digits.len()) as nat;
    lemma_hex_zeros(pad, digits);
    assert(seed_form(seed).skip(2) =~= zeros(pad) + digits);
}

} // verus!
