use netflow::demand::{intensities, MAX_INTENSITY};
use netflow::{Kind, Network};
use rand::SeedableRng;
use rand_pcg::Pcg64;

#[test]
fn greatest_intensity_is_a_quarter_of_a_byte() {
    assert_eq!(MAX_INTENSITY, u8::MAX / 4);
    assert_eq!(MAX_INTENSITY, 63);
}

#[test]
fn intensities_keep_the_samples() {
    assert_eq!(intensities(&vec![0, 63, 7, 255]), vec![0, 63, 7, 255]);
    assert_eq!(intensities(&vec![]), vec![]);
}

#[test]
fn random_matrix_has_a_row_and_a_column_for_every_node() {
    let net = Network::default();
    let mut rng = Pcg64::seed_from_u64(1);
    let m = net.gen_random_intensity_matrix(&mut rng);
    assert_eq!(m.len(), 20);
    for row in &m {
        assert_eq!(row.len(), 20);
    }
    assert!(net.check_demand(&m));
}

#[test]
fn random_intensities_lie_in_range_and_vary() {
    let net = Network::default();
    let mut rng = Pcg64::seed_from_u64(2);
    let m = net.gen_random_intensity_matrix(&mut rng);
    let mut least = i64::MAX;
    let mut greatest = i64::MIN;
    for row in &m {
        for x in row {
            assert!(0 <= *x && *x <= 63);
            least = least.min(*x);
            greatest = greatest.max(*x);
        }
    }
    assert!(least < greatest);
    assert!(least < 8);
    assert!(greatest > 55);
}

#[test]
fn random_matrix_draws_on_from_the_generator() {
    let net = Network::default();
    let mut rng = Pcg64::seed_from_u64(3);
    let first = net.gen_random_intensity_matrix(&mut rng);
    let second = net.gen_random_intensity_matrix(&mut rng);
    assert_ne!(first, second);
    let mut again = Pcg64::seed_from_u64(3);
    assert_eq!(net.gen_random_intensity_matrix(&mut again), first);
}

#[test]
fn random_matrix_of_an_empty_network_is_empty() {
    let net = Network::new(Kind::Simplex, 0, vec![]).unwrap();
    let mut rng = Pcg64::seed_from_u64(4);
    let m = net.gen_random_intensity_matrix(&mut rng);
    assert_eq!(m.len(), 0);
}

#[test]
fn random_matrix_is_accepted_by_the_solver() {
    let net = Network::default();
    let mut rng = Pcg64::seed_from_u64(5);
    let m = net.gen_random_intensity_matrix(&mut rng);
    let r = net.flow(m).unwrap();
    assert_eq!(r.flows.len(), 50);
    for l in 0..50 {
        assert!(r.flows[l] <= 255);
    }
}
