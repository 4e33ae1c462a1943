use libviprs_storage::storage::cells::{
    brink_cell, brink_search, collapses_at, leaf_cell, mid_cell, publishable, replicate_cell,
    smoke_cell, source_suits_the_cell, sources, Backend, Cell, Profile, Source,
};
use libviprs_storage::storage::plan::{coordinates, plan, planned_tiles, TileCoord};
use libviprs_storage::storage::scenarios;
use libviprs_storage::storage::scenarios::fills;
use libviprs_storage::storage::scenarios::replicate::{
    has_adjacent_placements, measured_first_and_last, placements, schedule,
};
use libviprs_storage::storage::raster::raster;
use libviprs_storage::storage::splitmix::{shuffle, Splitmix};
use libviprs_storage::storage::stats::{resample, tail_kind, TailKind};
use libviprs_storage::storage::tile_id::tile_id;

#[test]
fn the_planner_counts_what_the_cells_declare() {
    assert_eq!(planned_tiles(2048, 2048, 256), Some(93));
    assert_eq!(smoke_cell(Source::Gradient).planned_tiles(), Some(93));
    assert_eq!(planned_tiles(0, 10, 256), None);
    assert!(plan(16, 16, 0).is_none());
    for cell in [brink_cell(Source::Gradient), leaf_cell(Source::Gradient), mid_cell(Source::Gradient)] {
        assert_eq!(cell.planned_tiles(), Some(cell.declared_tiles as usize));
    }
    let tiny = plan(3, 2, 2).unwrap();
    assert_eq!(coordinates(&tiny).len(), planned_tiles(3, 2, 2).unwrap());
    assert_eq!(coordinates(&tiny)[0], TileCoord { level: 0, col: 0, row: 0 });
}

#[test]
fn the_brink_is_the_largest_flat_root() {
    let (cell, tiles) = brink_search();
    assert!(tiles <= 16383);
    assert_eq!(cell.planned_tiles(), Some(tiles as usize));
    assert_eq!(tiles, 16369);
    assert_eq!((cell.width, cell.height, cell.tile_px), (4096, 6256, 46));
}

#[test]
fn a_cell_reads_back_from_its_text() {
    let cell = smoke_cell(Source::Noise);
    assert_eq!(cell.spec(), "2048x2048@256+noise");
    assert!(Cell::parse(&cell.spec()) == Some(cell));
    for bad in ["", "2048x2048", "2048x2048@256", "ax2@3+noise", "1x1@1+what"] {
        assert!(Cell::parse(bad).is_none(), "{bad}");
    }
    assert_eq!(Backend::parse("pmtiles"), Some(Backend::PmTiles));
    assert_eq!(Backend::parse("tree"), None);
    assert_eq!(Source::parse("gradient"), Some(Source::Gradient));
}

#[test]
fn profiles_walk_their_cells() {
    assert_eq!(Profile::parse("full"), Some(Profile::Full));
    assert_eq!(Profile::parse("big"), None);
    assert_eq!(Profile::Ci.cells().len(), 1);
    assert!(!Profile::Ci.publishable());
    assert_eq!(Profile::Ci.read_samples(), 512);
    assert_eq!(Profile::Full.read_samples(), 20_000);
    assert!(!Profile::Ci.scenario_names().iter().any(|n| n.starts_with("read_concurrent@")));
    assert_eq!(Profile::Full.scenario_names().len(), 12);
    assert!(replicate_cell(Profile::Ci).is_none());
    let control = replicate_cell(Profile::Full).unwrap();
    let cells = Profile::Full.cells();
    let rest = Profile::Full.measured_cells();
    assert_eq!(cells.len(), 2 * rest.len() + 1);
    assert_eq!(placements(&cells, control), rest.len() + 1);
    assert!(!has_adjacent_placements(&cells, control));
    assert!(measured_first_and_last(&cells, control));
}

#[test]
fn the_schedule_places_the_control_around_every_cell() {
    assert_eq!(schedule(0u32, &[1, 2]), vec![0, 1, 0, 2, 0]);
    assert_eq!(schedule(0u32, &[]), vec![0]);
    assert!(has_adjacent_placements(&[0u32, 0, 1], 0));
    assert!(!measured_first_and_last(&[0u32, 1], 0));
}

#[test]
fn a_source_whose_period_divides_the_tile_collapses() {
    assert!(collapses_at(Source::PeriodicGradient, 256));
    assert!(!collapses_at(Source::Gradient, 256));
    assert!(source_suits_the_cell(&smoke_cell(Source::Gradient)).is_ok());
    assert!(source_suits_the_cell(&smoke_cell(Source::PeriodicGradient)).is_err());
    let cells = [smoke_cell(Source::Gradient), smoke_cell(Source::PeriodicGradient)];
    assert_eq!(publishable(&cells).len(), 1);
}

#[test]
fn rasters_hold_the_bytes_of_their_source() {
    let r = raster(Source::Gradient, 3, 2);
    assert_eq!((r.width(), r.height()), (3, 2));
    assert_eq!(
        r.data(),
        &[0, 0, 0, 1, 0, 7, 2, 0, 14, 0, 1, 13, 1, 1, 20, 2, 1, 27]
    );
    assert_eq!(raster(Source::Flat, 1, 1).data(), &[0, 0, 0]);
    assert_eq!(fills::flat(1, 1).data(), &[0x40, 0x40, 0x40]);
    let noise = raster(Source::Noise, 1, 1);
    let mut rng = Splitmix::new(0x5EED_1234_ABCD_0001);
    assert_eq!(noise.data(), &rng.next_u64().to_le_bytes()[..3]);
    let mut state: u64 = 0x2545_F491_4F6C_DD1D;
    state ^= state >> 12;
    state ^= state << 25;
    state ^= state >> 27;
    let word = state.wrapping_mul(0x2545_F491_4F6C_DD1D);
    assert_eq!(fills::noise(1, 1).data(), &[word as u8, (word >> 16) as u8, (word >> 32) as u8]);
    assert_eq!(fills::periodic_gradient(300, 1).data()[256 * 3..256 * 3 + 2], [0, 0]);
}

#[test]
fn the_shuffle_is_seeded_and_keeps_every_item() {
    let mut rng = Splitmix::new(0);
    assert_eq!(rng.next_u64(), 0xE220_A839_7B1D_CDAF);
    assert_eq!(rng.next_u64(), 0x6E78_9E6A_A1B9_65F4);
    assert_eq!(Splitmix::new(0).below(0), 0);
    let items: Vec<u32> = (0..50).collect();
    let a = shuffle(&items, 7);
    assert_eq!(a, shuffle(&items, 7));
    assert_ne!(a, items);
    let mut sorted = a.clone();
    sorted.sort();
    assert_eq!(sorted, items);
}

#[test]
fn tile_ids_follow_the_hilbert_curve() {
    let id = |level: u32, col: u32, row: u32| tile_id(TileCoord { level, col, row });
    assert_eq!(id(0, 0, 0), Some(0));
    assert_eq!(id(1, 0, 0), Some(1));
    assert_eq!(id(1, 0, 1), Some(2));
    assert_eq!(id(1, 1, 1), Some(3));
    assert_eq!(id(1, 1, 0), Some(4));
    assert_eq!(id(2, 0, 0), Some(5));
    assert_eq!(id(12, 3423, 1763), Some(19078479));
    assert_eq!(id(1, 2, 0), None);
}

#[test]
fn a_tail_is_a_percentile_only_from_a_hundred_samples_on() {
    assert_eq!(tail_kind(0), None);
    assert_eq!(tail_kind(99), Some(TailKind::Max));
    assert_eq!(tail_kind(100), Some(TailKind::P99));
    let mut rng = Splitmix::new(1);
    let drawn = resample(&mut rng, 10);
    assert_eq!(drawn.len(), 10);
    assert!(drawn.iter().all(|i| *i < 10));
}

#[test]
fn the_scenario_cells_plan_what_they_name() {
    let cell = scenarios::smoke_cell(Source::Gradient);
    assert_eq!(cell.planned_tiles(), 93);
    assert_eq!(cell.plan().levels.len(), 12);
    assert_eq!(scenarios::publishable(&[cell.with_source(Source::PeriodicGradient)]).len(), 0);
    assert!(scenarios::source_suits_the_cell(&cell).is_ok());
    assert_eq!(scenarios::brink_search().1, 16369);
}

#[test]
fn the_random_walk_is_the_seeded_shuffle() {
    assert_eq!(sources().len(), 4);
    let coords: Vec<TileCoord> = (0..9).map(|col| TileCoord { level: 4, col, row: 0 }).collect();
    assert_eq!(scenarios::random_order(&coords, 3), shuffle(&coords, 3));
}
