use packer::{ffd, largest_that_fits, modified_ffd, online_nf, Bin, ObjectTooBigError, Pack};

struct DataInfo {
    size: u64,
    data: i32,
}

impl Pack for DataInfo {
    fn spec_size(&self) -> u64 {
        self.size
    }

    fn get_size(&self) -> u64 {
        self.size
    }
}

fn item(size: u64) -> DataInfo {
    DataInfo { size, data: 0 }
}

/// Sizes spread over [min, max], from a fixed linear congruential sequence.
fn generate_items(min: u64, max: u64, count: u64) -> Vec<DataInfo> {
    let mut state: u64 = 0x2545_f491_4f6c_dd1d;
    let mut items: Vec<DataInfo> = Vec::new();
    for _ in 0..count {
        state = state.wrapping_mul(6364136223846793005).wrapping_add(1442695040888963407);
        items.push(DataInfo {
            size: (state >> 33) % (max - min + 1) + min,
            data: (state >> 40) as i32,
        })
    }
    items
}

fn check_bins(bins: &Vec<Bin<DataInfo>>, capacity: u64) -> usize {
    let mut sorted_items = 0;
    for bin in bins.iter() {
        let occupied_space: u64 = bin.items.iter().map(|i| i.get_size()).sum();
        assert!(occupied_space + bin.remaining_space == capacity);
        sorted_items += bin.items.len();
    }
    sorted_items
}

fn sizes_of(bins: &Vec<Bin<DataInfo>>) -> Vec<Vec<u64>> {
    bins.iter().map(|b| b.items.iter().map(|i| i.size).collect()).collect()
}

#[test]
fn test_valid_nf() {
    let sample_data = generate_items(1, 100, 1000);
    assert!(sample_data.len() == 1000);
    let bins: Vec<Bin<DataInfo>> = online_nf(sample_data, 100).ok().unwrap();
    assert!(check_bins(&bins, 100) == 1000);
}

#[test]
fn test_valid_ffd() {
    let sample_data = generate_items(1, 100, 1000);
    assert!(sample_data.len() == 1000);
    let bins: Vec<Bin<DataInfo>> = ffd(sample_data, 100).ok().unwrap();
    assert!(check_bins(&bins, 100) == 1000);
}

#[test]
fn make_add_bin() {
    let mut my_bin: Bin<DataInfo> = Bin::new_from(DataInfo { size: 60, data: -4 }, 100u64);
    assert!(my_bin.remaining_space == 40);
    my_bin.add_item(DataInfo { size: 12, data: 37 });
    assert_eq!(my_bin.remaining_space, 28);
    assert_eq!(my_bin.get_count(), 2);
}

#[test]
fn valid_modified_ffd() {
    let sample_data = generate_items(1, 100, 1000);
    let bins = modified_ffd(sample_data, 100).ok().unwrap();
    assert_eq!(check_bins(&bins, 100), 1000);
}

#[test]
fn ffd_uses_no_more_bins_than_next_fit() {
    let nf = online_nf(generate_items(1, 100, 1000), 100).ok().unwrap();
    let fd = ffd(generate_items(1, 100, 1000), 100).ok().unwrap();
    assert!(fd.len() <= nf.len());
}

#[test]
fn new_bin_is_empty() {
    let bin: Bin<DataInfo> = Bin::new(75);
    assert_eq!(bin.remaining_space, 75);
    assert_eq!(bin.get_count(), 0);
    assert_eq!(bin.get_weights_pretty(), "");
}

#[test]
fn does_fit_up_to_remaining_space() {
    let bin: Bin<DataInfo> = Bin::new_from(item(60), 100);
    assert!(bin.does_fit(&item(40)));
    assert!(!bin.does_fit(&item(41)));
    assert!(bin.does_fit(&item(0)));
}

#[test]
fn seed_filling_whole_bin() {
    let bin: Bin<DataInfo> = Bin::new_from(item(100), 100);
    assert_eq!(bin.remaining_space, 0);
    assert_eq!(bin.get_count(), 1);
}

#[test]
fn weights_are_listed_in_order() {
    let mut bin: Bin<DataInfo> = Bin::new_from(item(60), 100);
    assert_eq!(bin.get_weights_pretty(), "60");
    bin.add_item(item(12));
    bin.add_item(item(7));
    assert_eq!(bin.get_weights_pretty(), "60, 12, 7");
    assert_eq!(bin.items[0].data, 0);
}

#[test]
fn error_message_names_size_and_capacity() {
    let e = ObjectTooBigError(60, 50);
    assert_eq!(e.to_string(), "Object too big! 60 can't fit in 50");
}

#[test]
fn next_fit_opens_bins_in_order() {
    let items = vec![item(50), item(30), item(40), item(60), item(10), item(100)];
    let bins = online_nf(items, 100).ok().unwrap();
    assert_eq!(sizes_of(&bins), vec![vec![50, 30], vec![40, 60], vec![10], vec![100]]);
    let free: Vec<u64> = bins.iter().map(|b| b.remaining_space).collect();
    assert_eq!(free, vec![20, 0, 90, 0]);
}

#[test]
fn next_fit_empty_input_gives_one_empty_bin() {
    let bins = online_nf(Vec::<DataInfo>::new(), 10).ok().unwrap();
    assert_eq!(bins.len(), 1);
    assert_eq!(bins[0].get_count(), 0);
    assert_eq!(bins[0].remaining_space, 10);
}

#[test]
fn next_fit_is_repeatable() {
    let a = online_nf(generate_items(1, 100, 200), 100).ok().unwrap();
    let b = online_nf(generate_items(1, 100, 200), 100).ok().unwrap();
    assert_eq!(sizes_of(&a), sizes_of(&b));
}

fn error_of(r: Result<Vec<Bin<DataInfo>>, ObjectTooBigError>) -> (u64, u64) {
    match r {
        Err(e) => (e.0, e.1),
        Ok(_) => panic!("expected an error"),
    }
}

#[test]
fn next_fit_reports_first_oversized_item() {
    let items = vec![item(5), item(60), item(70), item(3)];
    assert_eq!(error_of(online_nf(items, 50)), (60, 50));
}

#[test]
fn ffd_reports_first_oversized_item() {
    let items = vec![item(5), item(60), item(70), item(3)];
    assert_eq!(error_of(ffd(items, 50)), (60, 50));
}

#[test]
fn modified_ffd_reports_first_oversized_item() {
    let items = vec![item(5), item(60), item(70), item(3)];
    assert_eq!(error_of(modified_ffd(items, 50)), (60, 50));
}

#[test]
fn oversized_seed_is_refused_by_strategies() {
    assert_eq!(error_of(ffd(vec![item(60)], 50)), (60, 50));
}

#[test]
fn ffd_places_largest_first() {
    let items = vec![item(20), item(50), item(70), item(30), item(40), item(10)];
    let bins = ffd(items, 100).ok().unwrap();
    assert_eq!(sizes_of(&bins), vec![vec![70, 30], vec![50, 40, 10], vec![20]]);
}

#[test]
fn ffd_empty_input_gives_no_bins() {
    let bins = ffd(Vec::<DataInfo>::new(), 10).ok().unwrap();
    assert_eq!(bins.len(), 0);
}

#[test]
fn modified_ffd_pairs_large_with_medium_and_small() {
    // large: 60, 55; medium: 40, 35; small: 20, 18, 17; tiny: 5
    let items = vec![item(17), item(60), item(5), item(40), item(20), item(55), item(35), item(18)];
    let bins = modified_ffd(items, 100).ok().unwrap();
    assert_eq!(sizes_of(&bins), vec![vec![60, 40], vec![55, 35, 5], vec![20, 18, 17]]);
    assert_eq!(check_bins(&bins, 100), 8);
}

#[test]
fn modified_ffd_small_items_fill_bins_without_medium() {
    // large: 70, 60; small: 30, 20, 18
    let items = vec![item(20), item(70), item(30), item(60), item(18)];
    let bins = modified_ffd(items, 100).ok().unwrap();
    assert_eq!(sizes_of(&bins), vec![vec![70, 30], vec![60, 18, 20]]);
}

#[test]
fn largest_that_fits_finds_first_fitting() {
    let bin: Bin<DataInfo> = Bin::new_from(item(60), 100);
    let items = vec![item(70), item(50), item(40), item(40), item(10)];
    assert_eq!(largest_that_fits(&items, &bin), Some(2));
    let all_fit = vec![item(40), item(10)];
    assert_eq!(largest_that_fits(&all_fit, &bin), Some(0));
    let none_fit = vec![item(90), item(41)];
    assert_eq!(largest_that_fits(&none_fit, &bin), None);
    assert_eq!(largest_that_fits(&Vec::<DataInfo>::new(), &bin), None);
}
