use nexus_sort_core::{nexus_sort, nexus_sort_f32};
use rand::{Rng, SeedableRng};

#[test]
fn test_i32_sort() {
    let mut rng = rand::rngs::StdRng::seed_from_u64(42);
    let mut data: Vec<i32> = (0..1000).map(|_| rng.gen()).collect();
    let mut sorted = data.clone();
    sorted.sort();
    nexus_sort(&mut data);
    assert_eq!(data, sorted);
}

#[test]
fn test_f32_sort() {
    let mut rng = rand::rngs::StdRng::seed_from_u64(44);
    let data: Vec<f32> = (0..1000).map(|_| rng.gen::<f32>() * 2000.0 - 1000.0).collect();
    let mut sorted = data.clone();
    sorted.sort_by(|a, b| a.partial_cmp(b).unwrap());
    let mut bits: Vec<u32> = data.iter().map(|x| x.to_bits()).collect();
    nexus_sort_f32(&mut bits);
    let result: Vec<f32> = bits.iter().map(|b| f32::from_bits(*b)).collect();
    assert_eq!(result, sorted);
}
