//! Heightfields, their file, and the loaded terrain.
use aurora::terrain::{terrain_generate, Heightfield, Terrain, TerrainError};

/// A terrain that is perfectly flat at `y`.
fn flat(dim: u32, spacing: f32, y: f32) -> Heightfield {
    let half = -0.5 * (dim - 1) as f32 * spacing;
    Heightfield::new(
        dim,
        spacing.to_bits(),
        half.to_bits(),
        half.to_bits(),
        vec![y.to_bits(); (dim * dim) as usize],
    )
    .ok()
    .expect("flat field")
}

/// A terrain with hills, every sample different from its neighbours.
fn hills(dim: u32, spacing: f32) -> Heightfield {
    let half = -0.5 * (dim - 1) as f32 * spacing;
    let heights = (0..dim * dim).map(|i| ((i as f32) * 0.37).sin().to_bits()).collect();
    Heightfield::new(dim, spacing.to_bits(), half.to_bits(), half.to_bits(), heights)
        .ok()
        .expect("hills")
}

#[test]
fn builtins_are_defined_with_no_terrain_loaded() {
    let mut t = Terrain::new();
    assert_eq!(t.terrain_size(), 0);
    assert_eq!(f32::from_bits(t.terrain_spacing()), 0.0);
    assert_eq!(f32::from_bits(t.terrain_origin_x()), 0.0);
    assert_eq!(f32::from_bits(t.terrain_origin_z()), 0.0);
    assert!(t.terrain_save().is_none());
    // A file that cannot be read, or an empty one, is refused.
    assert_eq!(t.terrain_load(None), 0);
    assert_eq!(t.terrain_load(Some(&[])), 0);
}

#[test]
fn a_generated_terrain_round_trips_through_a_file() {
    let mut t = Terrain::new();
    assert_eq!(t.install(Ok(hills(65, 1.25))), 1);
    let heights = t.field.as_ref().unwrap().heights.clone();
    let file = t.terrain_save().unwrap();
    assert_eq!(file.len(), 24 + 65 * 65 * 4, "unexpected file size");

    // Drop it and read it back.
    let mut t = Terrain::new();
    assert_eq!(t.terrain_load(Some(&file)), 1);
    assert_eq!(t.terrain_size(), 65);
    assert_eq!(f32::from_bits(t.terrain_spacing()), 1.25);
    assert_eq!(f32::from_bits(t.terrain_origin_x()), -40.0);
    assert_eq!(f32::from_bits(t.terrain_origin_z()), -40.0);
    assert_eq!(t.field.unwrap().heights, heights, "reloaded heights differ");
}

#[test]
fn a_bad_file_fails_without_disturbing_the_loaded_terrain() {
    let mut t = Terrain::new();
    assert_eq!(t.install(Ok(flat(17, 1.0, 7.5))), 1);
    assert_eq!(t.terrain_load(Some(b"not a terrain at all")), 0);
    assert_eq!(t.terrain_size(), 17, "a failed load replaced the terrain");
    assert_eq!(f32::from_bits(t.field.as_ref().unwrap().heights[0]), 7.5);

    assert_eq!(t.terrain_load(None), 0);
    assert_eq!(t.terrain_size(), 17);
}

#[test]
fn generate_rejects_a_dim_that_cannot_tile() {
    let one = 1.0f32.to_bits();
    assert_eq!(terrain_generate(64, one), Err(TerrainError::Dim), "dim 64");
    assert_eq!(terrain_generate(0, one), Err(TerrainError::Dim), "dim 0");
    assert_eq!(terrain_generate(-5, one), Err(TerrainError::Dim), "negative dim");
    assert_eq!(terrain_generate(1 << 40, one), Err(TerrainError::Dim), "absurd dim");
    assert_eq!(terrain_generate(33, 0.0f32.to_bits()), Err(TerrainError::Spacing), "zero spacing");
    assert_eq!(terrain_generate(33, 2.0f32.to_bits()), Ok(33), "dim 33 is valid");
}

#[test]
fn each_flaw_of_a_file_is_told_apart() {
    let good = flat(5, 2.0, 1.0).encode();
    assert_eq!(&good[..8], b"AURTERR1");
    assert!(Heightfield::decode(&good).is_ok());
    let err = |b: &[u8]| Heightfield::decode(b).err().unwrap();
    assert_eq!(err(&good[..23]), TerrainError::Short);
    let mut bad = good.clone();
    bad[0] = b'X';
    assert_eq!(err(&bad), TerrainError::Magic);
    let mut bad = good.clone();
    bad[8] = 6;
    assert_eq!(err(&bad), TerrainError::Dim);
    let mut bad = good.clone();
    bad[15] = 0xC0;
    assert_eq!(err(&bad), TerrainError::Spacing);
    let mut bad = good.clone();
    bad.push(0);
    assert_eq!(err(&bad), TerrainError::Size);
    let few = Heightfield::new(5, 1.0f32.to_bits(), 0, 0, vec![0; 24]);
    assert_eq!(few.err().unwrap(), TerrainError::Count);
    let nan = Heightfield::new(5, f32::NAN.to_bits(), 0, 0, vec![0; 25]);
    assert_eq!(nan.err().unwrap(), TerrainError::Spacing);
}

/// A size that cannot tile leaves no terrain behind; a good one gives its size.
#[test]
fn a_refused_size_loads_nothing() {
    let mut t = Terrain::new();
    for (dim, spacing) in [(64, 1.0f32), (0, 1.0), (-5, 1.0), (1 << 40, 1.0), (33, 0.0)] {
        let built = terrain_generate(dim, spacing.to_bits()).map(|d| flat(d, spacing, 0.0));
        assert_eq!(t.install(built), 0);
        assert_eq!(t.terrain_size(), 0, "a rejected generate left a terrain behind");
    }
    let built = terrain_generate(33, 2.0f32.to_bits()).map(|d| flat(d, 2.0, 0.0));
    assert_eq!(t.install(built), 1);
    assert_eq!(t.terrain_size(), 33);
}
