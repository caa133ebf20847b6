use diceroll::notation::{parse_notation, DieSides, DieSpec};
use diceroll::rolling::{evaluate, make_pool, roll, KeepRule, RollOptions};

fn plain(keep: KeepRule) -> RollOptions {
    RollOptions { exploding: false, keep }
}

#[test]
fn plain_roll_pool_size_and_range() {
    let spec = parse_notation("10d6").unwrap();
    for _ in 0..50 {
        let r = roll(&spec, &plain(KeepRule::All));
        assert_eq!(r.pool.len(), 10);
        assert!(r.pool.iter().all(|&v| 1 <= v && v <= 6));
        assert_eq!(r.kept, r.pool);
        let sum: i64 = r.pool.iter().sum();
        assert_eq!(r.total, sum);
    }
}

#[test]
fn modifier_is_added_to_the_total() {
    let spec = parse_notation("2d6+3").unwrap();
    for _ in 0..50 {
        let r = roll(&spec, &plain(KeepRule::All));
        let sum: i64 = r.kept.iter().sum();
        assert_eq!(r.total, sum + 3);
        assert!(5 <= r.total && r.total <= 15);
    }
}

#[test]
fn fudge_rolls_stay_on_the_three_faces() {
    let spec = parse_notation("6dF").unwrap();
    for _ in 0..50 {
        let r = roll(&spec, &plain(KeepRule::All));
        assert_eq!(r.pool.len(), 6);
        assert!(r.pool.iter().all(|&v| v == -1 || v == 0 || v == 1));
    }
}

#[test]
fn keep_highest_keeps_the_largest() {
    let spec = parse_notation("10d6").unwrap();
    for _ in 0..50 {
        let r = roll(&spec, &plain(KeepRule::Highest(3)));
        assert_eq!(r.pool.len(), 10);
        assert_eq!(r.kept.len(), 3);
        // the pool comes back sorted descending with the kept dice in front
        assert!(r.pool.windows(2).all(|w| w[0] >= w[1]));
        assert_eq!(&r.pool[..3], &r.kept[..]);
        for &k in &r.kept {
            for &d in &r.pool[3..] {
                assert!(k >= d);
            }
        }
    }
}

#[test]
fn keep_lowest_keeps_the_smallest() {
    let spec = parse_notation("10d6").unwrap();
    let r = roll(&spec, &plain(KeepRule::Lowest(4)));
    assert_eq!(r.kept.len(), 4);
    assert!(r.pool.windows(2).all(|w| w[0] <= w[1]));
    assert_eq!(&r.pool[..4], &r.kept[..]);
}

#[test]
fn drop_lowest_equals_keep_highest() {
    // Evaluation is deterministic on a fixed pool: dropping the lowest two
    // of five dice yields exactly what keeping the highest three yields.
    let pool = vec![4i64, 1, 5, 2, 3];
    let a = evaluate(pool.clone(), KeepRule::DropLowest(2), 0);
    let b = evaluate(pool.clone(), KeepRule::Highest(3), 0);
    assert_eq!(a.pool, b.pool);
    assert_eq!(a.kept, b.kept);
    assert_eq!(a.total, b.total);
    assert_eq!(a.kept, vec![5, 4, 3]);
    assert_eq!(a.total, 12);
}

#[test]
fn drop_lowest_more_than_pool_keeps_nothing() {
    let pool = vec![2i64, 7];
    let r = evaluate(pool, KeepRule::DropLowest(5), 1);
    assert_eq!(r.kept.len(), 0);
    assert_eq!(r.total, 1);
}

#[test]
fn drop_highest_keeps_the_smallest() {
    let pool = vec![4i64, 1, 5, 2, 3];
    let r = evaluate(pool, KeepRule::DropHighest(2), 0);
    assert_eq!(r.pool, vec![1, 2, 3, 4, 5]);
    assert_eq!(r.kept, vec![1, 2, 3]);
    assert_eq!(r.total, 6);
}

#[test]
fn keep_all_preserves_rolled_order() {
    let pool = vec![3i64, 1, 2];
    let r = evaluate(pool.clone(), KeepRule::All, 4);
    assert_eq!(r.pool, pool);
    assert_eq!(r.kept, pool);
    assert_eq!(r.total, 10);
}

#[test]
fn keep_count_covering_pool_leaves_order_alone() {
    let pool = vec![3i64, 1, 2];
    let r = evaluate(pool.clone(), KeepRule::Highest(3), 0);
    assert_eq!(r.pool, pool);
    assert_eq!(r.kept, pool);
}

#[test]
fn exploding_grows_pool_by_one_per_maximum() {
    let spec = parse_notation("1d2").unwrap();
    let opts = RollOptions { exploding: true, keep: KeepRule::All };
    for _ in 0..200 {
        let r = roll(&spec, &opts);
        let maxes = r.pool.iter().filter(|&&v| v == 2).count();
        assert_eq!(r.pool.len(), 1 + maxes);
        assert_ne!(*r.pool.last().unwrap(), 2);
    }
}

#[test]
fn exploding_fudge_grows_pool_by_one_per_plus() {
    let spec = parse_notation("3dF").unwrap();
    let opts = RollOptions { exploding: true, keep: KeepRule::All };
    for _ in 0..100 {
        let r = roll(&spec, &opts);
        let pluses = r.pool.iter().filter(|&&v| v == 1).count();
        assert_eq!(r.pool.len(), 3 + pluses);
    }
}

#[test]
fn non_exploding_pool_is_exactly_the_die_count() {
    let spec = parse_notation("7d2").unwrap();
    for _ in 0..100 {
        let r = roll(&spec, &plain(KeepRule::All));
        assert_eq!(r.pool.len(), 7);
    }
}

#[test]
fn one_sided_die_never_explodes() {
    let spec = parse_notation("5d1").unwrap();
    let opts = RollOptions { exploding: true, keep: KeepRule::All };
    let r = roll(&spec, &opts);
    assert_eq!(r.pool, vec![1, 1, 1, 1, 1]);
    assert_eq!(r.total, 5);
}

#[test]
fn make_pool_draws_one_value_per_die() {
    let pool = make_pool(8, DieSides::Standard(4), false);
    assert_eq!(pool.len(), 8);
    assert!(pool.iter().all(|&v| 1 <= v && v <= 4));
}

#[test]
fn zero_dice_roll_is_just_the_modifier() {
    let spec = parse_notation("0d6+2").unwrap();
    assert_eq!(spec.count, 0);
    let r = roll(&spec, &plain(KeepRule::All));
    assert_eq!(r.pool.len(), 0);
    assert_eq!(r.total, 2);
}

#[test]
fn roll_of_parsed_spec_struct_built_by_hand() {
    let spec = DieSpec { count: 3, sides: DieSides::Standard(1), modifier: -2 };
    let r = roll(&spec, &plain(KeepRule::All));
    assert_eq!(r.total, 1);
}
