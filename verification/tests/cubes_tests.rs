use adv2023::cubes::lookup;
use adv2023::cubes::merge_limits;
use adv2023::cubes::product_of;
use adv2023::cubes::Cubes;
use adv2023::cubes::Game;
use adv2023::cubes::Round;

fn cubes(count: u32, color: &str) -> Cubes {
    Cubes { count, color: color.to_string() }
}

fn bag() -> Vec<(String, u32)> {
    vec![
        ("red".to_string(), 12),
        ("green".to_string(), 13),
        ("blue".to_string(), 14),
    ]
}

#[test]
fn lookups_find_the_first_entry() {
    let limits = bag();
    assert_eq!(lookup(&limits, &"red".to_string()), Some(12));
    assert_eq!(lookup(&limits, &"blue".to_string()), Some(14));
    assert_eq!(lookup(&limits, &"purple".to_string()), None);
}

#[test]
fn rounds_fit_or_burst_the_bag() {
    // Game 1 of the sample: 3 blue, 4 red; 1 red, 2 green, 6 blue; 2 green.
    let g1 = Game {
        id: 1,
        rounds: vec![
            Round { cubes: vec![cubes(3, "blue"), cubes(4, "red")] },
            Round { cubes: vec![cubes(1, "red"), cubes(2, "green"), cubes(6, "blue")] },
            Round { cubes: vec![cubes(2, "green")] },
        ],
    };
    assert!(g1.fits(&bag()));
    // Game 3 shows 20 red, which bursts the 12-red bag.
    let g3 = Game {
        id: 3,
        rounds: vec![
            Round { cubes: vec![cubes(8, "green"), cubes(6, "blue"), cubes(20, "red")] },
            Round { cubes: vec![cubes(5, "blue"), cubes(4, "red"), cubes(13, "green")] },
            Round { cubes: vec![cubes(5, "green"), cubes(1, "red")] },
        ],
    };
    assert!(!g3.fits(&bag()));
    // Game 1's minimal bag: 4 red, 2 green, 6 blue; its power is 48.
    let l = g1.limits();
    assert_eq!(lookup(&l, &"red".to_string()), Some(4));
    assert_eq!(lookup(&l, &"green".to_string()), Some(2));
    assert_eq!(lookup(&l, &"blue".to_string()), Some(6));
    assert_eq!(product_of(&l), 48);
}

#[test]
fn round_limits_keep_the_last_showing() {
    let r = Round { cubes: vec![cubes(3, "blue"), cubes(4, "red"), cubes(6, "blue")] };
    let l = r.limits();
    assert_eq!(lookup(&l, &"blue".to_string()), Some(6));
    assert_eq!(lookup(&l, &"red".to_string()), Some(4));
}

#[test]
fn merged_limits_take_each_maximum() {
    let a = vec![("red".to_string(), 4), ("blue".to_string(), 6)];
    let b = vec![("red".to_string(), 1), ("green".to_string(), 2)];
    let m = merge_limits(a, b);
    assert_eq!(lookup(&m, &"red".to_string()), Some(4));
    assert_eq!(lookup(&m, &"green".to_string()), Some(2));
    assert_eq!(lookup(&m, &"blue".to_string()), Some(6));
}
