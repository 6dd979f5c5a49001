use ferveo_core::partition::{partition_domain, Params, Participant, ShareRange, Validator};
use ferveo_core::Error;

fn v(id: u64, stake: u64) -> Validator {
    Validator { id, stake }
}

#[test]
fn four_validators_exact_split() {
    // stakes [40,30,20,10], total_weight 100 -> weights [40,30,20,10],
    // ranges [0,40),[40,70),[70,90),[90,100)
    let params = Params { total_weight: 100 };
    let mut anns = vec![v(1, 40), v(2, 30), v(3, 20), v(4, 10)];
    let ps = partition_domain(&params, &mut anns).unwrap();
    let weights: Vec<u32> = ps.iter().map(|p| p.weight).collect();
    assert_eq!(weights, vec![40, 30, 20, 10]);
    let ranges: Vec<(usize, usize)> = ps.iter().map(|p| (p.share_range.start, p.share_range.end)).collect();
    assert_eq!(ranges, vec![(0, 40), (40, 70), (70, 90), (90, 100)]);
}

#[test]
fn rounding_shortfall_goes_to_largest() {
    // stakes [1,1,1], total_weight 10 -> floors [3,3,3], adjust 1,
    // final weights [4,3,3]
    let params = Params { total_weight: 10 };
    let mut anns = vec![v(1, 1), v(2, 1), v(3, 1)];
    let ps = partition_domain(&params, &mut anns).unwrap();
    let weights: Vec<u32> = ps.iter().map(|p| p.weight).collect();
    assert_eq!(weights, vec![4, 3, 3]);
    let ranges: Vec<(usize, usize)> = ps.iter().map(|p| (p.share_range.start, p.share_range.end)).collect();
    assert_eq!(ranges, vec![(0, 4), (4, 7), (7, 10)]);
}

#[test]
fn weights_sum_and_ranges_tile_domain() {
    // skewed stakes: weights must sum exactly and ranges tile [0, W) gap-free
    let params = Params { total_weight: 37 };
    let mut anns = vec![v(1, 1_000_000), v(2, 3), v(3, 17), v(4, 999), v(5, 1)];
    let ps = partition_domain(&params, &mut anns).unwrap();
    let total: u32 = ps.iter().map(|p| p.weight).sum();
    assert_eq!(total, 37);
    let mut next = 0usize;
    for p in &ps {
        assert_eq!(p.share_range.start, next);
        assert_eq!(p.share_range.end, next + p.weight as usize);
        next = p.share_range.end;
    }
    assert_eq!(next, 37);
}

#[test]
fn partition_is_deterministic() {
    let params = Params { total_weight: 55 };
    let mut a1 = vec![v(1, 9), v(2, 9), v(3, 14), v(4, 2)];
    let mut a2 = vec![v(1, 9), v(2, 9), v(3, 14), v(4, 2)];
    let r1 = partition_domain(&params, &mut a1).unwrap();
    let r2 = partition_domain(&params, &mut a2).unwrap();
    assert_eq!(r1, r2);
    assert_eq!(a1, a2);
}

#[test]
fn ties_keep_input_order() {
    let params = Params { total_weight: 12 };
    let mut anns = vec![v(1, 3), v(2, 5), v(3, 3)];
    let ps = partition_domain(&params, &mut anns).unwrap();
    let ids: Vec<u64> = ps.iter().map(|p| p.id).collect();
    assert_eq!(ids, vec![2, 1, 3]);
    // the sorted announcements are left behind in sorted order
    let sorted_ids: Vec<u64> = anns.iter().map(|a| a.id).collect();
    assert_eq!(sorted_ids, vec![2, 1, 3]);
}

#[test]
fn raising_a_stake_never_lowers_its_weight() {
    let params = Params { total_weight: 10 };
    let mut before = vec![v(1, 5), v(2, 3), v(3, 2)];
    let mut after = vec![v(1, 5), v(2, 4), v(3, 2)];
    let pb = partition_domain(&params, &mut before).unwrap();
    let pa = partition_domain(&params, &mut after).unwrap();
    let wb = pb.iter().find(|p| p.id == 2).unwrap().weight;
    let wa = pa.iter().find(|p| p.id == 2).unwrap().weight;
    assert!(wa >= wb);
}

#[test]
fn zero_total_stake_with_large_weight_fails() {
    // with no stake at all the shortfall is the whole weight; three
    // validators cannot absorb ten units
    let params = Params { total_weight: 10 };
    let mut anns = vec![v(1, 0), v(2, 0), v(3, 0)];
    assert_eq!(partition_domain(&params, &mut anns), Err(Error::Arithmetic));
}

#[test]
fn zero_total_stake_with_small_weight_spreads_units() {
    let params = Params { total_weight: 2 };
    let mut anns = vec![v(1, 0), v(2, 0), v(3, 0)];
    let ps = partition_domain(&params, &mut anns).unwrap();
    let weights: Vec<u32> = ps.iter().map(|p| p.weight).collect();
    assert_eq!(weights, vec![1, 1, 0]);
}

#[test]
fn empty_announcements() {
    let params = Params { total_weight: 0 };
    let mut anns: Vec<Validator> = vec![];
    let ps = partition_domain(&params, &mut anns).unwrap();
    assert!(ps.is_empty());

    let params = Params { total_weight: 1 };
    let mut anns: Vec<Validator> = vec![];
    assert_eq!(partition_domain(&params, &mut anns), Err(Error::Arithmetic));
}

#[test]
fn zero_weight_gives_empty_ranges() {
    let params = Params { total_weight: 0 };
    let mut anns = vec![v(1, 7), v(2, 5)];
    let ps = partition_domain(&params, &mut anns).unwrap();
    assert_eq!(
        ps,
        vec![
            Participant { id: 1, weight: 0, share_range: ShareRange { start: 0, end: 0 } },
            Participant { id: 2, weight: 0, share_range: ShareRange { start: 0, end: 0 } },
        ]
    );
}
