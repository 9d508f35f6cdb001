use geodesic_wallpaper::noise_field::permutation_table;

#[test]
fn test_permutation_table_has_256_unique_values_in_first_half() {
    let table = permutation_table(12345);
    let first_half = &table[..256];
    let mut seen = [false; 256];
    for &v in first_half {
        seen[v as usize] = true;
    }
    assert!(seen.iter().all(|&s| s), "first half should contain all 256 values");
}

#[test]
fn permutation_table_second_half_repeats_first() {
    let table = permutation_table(7);
    assert_eq!(&table[..256], &table[256..]);
    assert_eq!(permutation_table(7), permutation_table(7));
}
