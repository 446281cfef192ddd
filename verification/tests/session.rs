use gym_planner::{Bar, BarKind, Dumbbell, Gym, GymError, Plate, Requirement};

const KG: u64 = 1_000_000;
const CM: u64 = 10_000;

fn plate_r(weight: u64, count: usize) -> Vec<Plate> {
    let mut v = Vec::with_capacity(count);
    for _ in 0..count {
        v.push(Plate::new(weight, 5 * CM));
    }
    v
}

fn barbell() -> Bar {
    Bar::new(15 * KG, 5 * CM, BarKind::Barbell)
}

fn ladder_plates() -> Vec<Plate> {
    let mut plates: Vec<Plate> = Vec::new();
    plates.extend(plate_r(5 * KG / 2, 12));
    plates.extend(plate_r(5 * KG, 2));
    plates.extend(plate_r(10 * KG, 2));
    plates.extend(plate_r(15 * KG, 2));
    plates.extend(plate_r(20 * KG, 2));
    plates
}

fn weights_of(dumbbell: &Dumbbell) -> Vec<u64> {
    dumbbell.plates().iter().map(|p| p.weight()).collect()
}

#[test]
fn workout_for_30b_40b_45b_with_given_inventory() {
    let bar = barbell();
    let plates = ladder_plates();
    assert!(Gym::fits(&plates, &[bar]));
    let gym = Gym::new(&plates, &[bar]);

    let requirements = vec![
        Requirement::new(30 * KG, BarKind::Barbell),
        Requirement::new(40 * KG, BarKind::Barbell),
        Requirement::new(45 * KG, BarKind::Barbell),
    ];

    let workout = gym.workout(&requirements).expect("workout should succeed");
    let dumbbells = workout.get(bar);

    println!("{workout:?}");

    assert_eq!(dumbbells.len(), 3);
    assert_eq!(*dumbbells[0].weight(), 30 * KG);
    assert_eq!(*dumbbells[1].weight(), 40 * KG);
    assert_eq!(*dumbbells[2].weight(), 45 * KG);
}

#[test]
fn ladder_takes_the_fewest_plate_changes() {
    let bar = barbell();
    let gym = Gym::new(&ladder_plates(), &[bar]);
    let requirements = vec![
        Requirement::new(30 * KG, BarKind::Barbell),
        Requirement::new(40 * KG, BarKind::Barbell),
        Requirement::new(45 * KG, BarKind::Barbell),
    ];
    let plan = gym
        .find_optimal_sequence(BarKind::Barbell, &requirements)
        .expect("a plan exists");
    assert_eq!(plan.cost, 3);
    assert_eq!(plan.states.len(), 3);
    let workout = gym.workout_ordered(&requirements).expect("workout should succeed");
    let dumbbells = workout.get(bar);
    let half = 5 * KG / 2;
    assert_eq!(weights_of(&dumbbells[0]), vec![5 * KG, half]);
    assert_eq!(weights_of(&dumbbells[1]), vec![5 * KG, half, half, half]);
    assert_eq!(weights_of(&dumbbells[2]), vec![5 * KG, half, half, half, half]);
    assert_eq!(workout.bars(), vec![bar]);
}

#[test]
fn identical_inputs_give_identical_workouts() {
    let bar = barbell();
    let requirements = vec![
        Requirement::new(30 * KG, BarKind::Barbell),
        Requirement::new(40 * KG, BarKind::Barbell),
        Requirement::new(45 * KG, BarKind::Barbell),
    ];
    let first = Gym::new(&ladder_plates(), &[bar]).workout(&requirements).unwrap();
    let second = Gym::new(&ladder_plates(), &[bar]).workout(&requirements).unwrap();
    assert_eq!(first, second);
}

#[test]
fn empty_request_list_gives_empty_workout() {
    let gym = Gym::new(&ladder_plates(), &[barbell()]);
    let workout = gym.workout(&[]).expect("nothing to plan is no error");
    assert!(workout.bars().is_empty());
    assert!(workout.get(barbell()).is_empty());
}

#[test]
fn infeasible_request_is_reported() {
    let bar = barbell();
    let plates = plate_r(5 * KG, 2);
    let gym = Gym::new(&plates, &[bar]);
    let wanted = Requirement::new(100 * KG, BarKind::Barbell);
    let found = gym.workout(&[wanted]);
    assert_eq!(found, Err(GymError::ImpossibleRequirement(wanted)));
    let found = gym.workout_ordered(&[wanted]);
    assert_eq!(found, Err(GymError::ImpossibleRequirement(wanted)));
}

#[test]
fn first_infeasible_request_is_the_one_reported() {
    let gym = Gym::new(&plate_r(5 * KG, 2), &[barbell()]);
    let fine = Requirement::new(25 * KG, BarKind::Barbell);
    let first = Requirement::new(26 * KG, BarKind::Barbell);
    let second = Requirement::new(27 * KG, BarKind::Dumbbell);
    let found = gym.workout(&[fine, first, second]);
    assert_eq!(found, Err(GymError::ImpossibleRequirement(first)));
    let found = gym.workout(&[fine, second, first]);
    assert_eq!(found, Err(GymError::ImpossibleRequirement(second)));
}

#[test]
fn kind_without_bars_is_infeasible() {
    let gym = Gym::new(&plate_r(5 * KG, 8), &[barbell()]);
    let wanted = Requirement::new(15 * KG, BarKind::Dumbbell);
    assert_eq!(gym.workout(&[wanted]), Err(GymError::ImpossibleRequirement(wanted)));
}

#[test]
fn mixed_kinds_are_planned_apart() {
    let long = barbell();
    let short = Bar::new(2 * KG, 5 * CM, BarKind::Dumbbell);
    let plates = plate_r(5 * KG, 8);
    let gym = Gym::new(&plates, &[long, short]);
    let requirements = vec![
        Requirement::new(25 * KG, BarKind::Barbell),
        Requirement::new(12 * KG, BarKind::Dumbbell),
        Requirement::new(35 * KG, BarKind::Barbell),
        Requirement::new(22 * KG, BarKind::Dumbbell),
    ];
    let workout = gym.workout(&requirements).expect("workout should succeed");
    assert_eq!(workout.bars(), vec![short, long]);
    let on_long = workout.get(long);
    let on_short = workout.get(short);
    assert_eq!(on_long.len(), 2);
    assert_eq!(on_short.len(), 2);
    assert_eq!(*on_long[0].weight(), 25 * KG);
    assert_eq!(*on_long[1].weight(), 35 * KG);
    assert_eq!(*on_short[0].weight(), 12 * KG);
    assert_eq!(*on_short[1].weight(), 22 * KG);
    assert_eq!(weights_of(&on_short[1]), vec![5 * KG, 5 * KG]);
}

#[test]
fn single_request_takes_the_state_with_fewest_plates() {
    let bar = barbell();
    let gym = Gym::new(&ladder_plates(), &[bar]);
    let workout = gym
        .workout(&[Requirement::new(45 * KG, BarKind::Barbell)])
        .expect("workout should succeed");
    let dumbbells = workout.get(bar);
    assert_eq!(dumbbells.len(), 1);
    assert_eq!(weights_of(&dumbbells[0]), vec![15 * KG]);
}

#[test]
fn a_bar_listed_twice_counts_once() {
    let bar = barbell();
    let gym = Gym::new(&plate_r(5 * KG, 2), &[bar, bar]);
    let workout = gym
        .workout(&[Requirement::new(25 * KG, BarKind::Barbell)])
        .expect("workout should succeed");
    assert_eq!(workout.bars(), vec![bar]);
    assert_eq!(workout.get(bar).len(), 1);
}

#[test]
fn candidates_come_by_plate_count_then_number() {
    let gym = Gym::new(&ladder_plates(), &[barbell()]);
    let list = gym.find_states_for_requirement(Requirement::new(45 * KG, BarKind::Barbell));
    assert_eq!(list.len(), 5);
    let none = gym.find_states_for_requirement(Requirement::new(46 * KG, BarKind::Barbell));
    assert!(none.is_empty());
}

#[test]
fn available_weights_are_ascending_and_distinct() {
    let long = barbell();
    let short = Bar::new(2 * KG, 5 * CM, BarKind::Dumbbell);
    let gym = Gym::new(&plate_r(5 * KG, 8), &[long, short]);
    let weights = gym.weights();
    assert_eq!(
        weights.get(BarKind::Barbell),
        vec![15 * KG, 25 * KG, 35 * KG, 45 * KG, 55 * KG]
    );
    assert_eq!(weights.get(BarKind::Dumbbell), vec![2 * KG, 12 * KG, 22 * KG]);
}

#[test]
fn limits_of_the_machine_are_checked() {
    let bar = barbell();
    assert!(Gym::fits(&plate_r(KG, 30), &[bar]));
    assert!(!Gym::fits(&plate_r(KG, 64), &[bar]));
    let heavy = vec![Plate::new(u64::MAX / 2, 5 * CM), Plate::new(u64::MAX / 2, 5 * CM)];
    assert!(!Gym::fits(&heavy, &[bar]));
    assert!(Gym::fits(&heavy, &[Bar::new(1, 6 * CM, BarKind::Barbell)]));
}

#[test]
fn too_many_states_do_not_fit() {
    let mut plates = Vec::new();
    for weight in [1, 2, 4, 8, 16] {
        plates.extend(plate_r(weight * KG, 2));
    }
    let bars: Vec<Bar> =
        (10..14).map(|weight| Bar::new(weight * KG, 5 * CM, BarKind::Barbell)).collect();
    assert!(Gym::fits(&plates, &bars[..3]));
    assert!(!Gym::fits(&plates, &bars));
    assert!(Gym::try_new(&plates, &bars).is_none());
    let mixed = vec![
        bars[0],
        bars[1],
        Bar::new(2 * KG, 5 * CM, BarKind::Dumbbell),
        Bar::new(3 * KG, 5 * CM, BarKind::Dumbbell),
    ];
    assert!(Gym::fits(&plates, &mixed));
}

#[test]
fn gym_is_built_where_it_fits() {
    let bar = barbell();
    let gym = Gym::try_new(&plate_r(5 * KG, 4), &[bar]).expect("the gym fits");
    let workout = gym
        .workout(&[Requirement::new(35 * KG, BarKind::Barbell)])
        .expect("workout should succeed");
    assert_eq!(weights_of(&workout.get(bar)[0]), vec![5 * KG, 5 * KG]);
}

#[test]
fn bars_of_one_kind_are_loaded_side_by_side() {
    let long = Bar::new(15 * KG, 5 * CM, BarKind::Barbell);
    let light = Bar::new(10 * KG, 5 * CM, BarKind::Barbell);
    let gym = Gym::new(&plate_r(5 * KG, 4), &[long, light]);
    let requirements = vec![
        Requirement::new(25 * KG, BarKind::Barbell),
        Requirement::new(20 * KG, BarKind::Barbell),
    ];
    let plan = gym
        .find_optimal_sequence(BarKind::Barbell, &requirements)
        .expect("a plan exists");
    assert_eq!(plan.cost, 0);
    assert_eq!(plan.states[0], plan.states[1]);
    let workout = gym.workout(&requirements).expect("workout should succeed");
    assert_eq!(workout.bars(), vec![long, light]);
    let on_long = workout.get(long);
    let on_light = workout.get(light);
    assert_eq!(on_long.len(), 1);
    assert_eq!(on_light.len(), 1);
    assert_eq!(*on_long[0].weight(), 25 * KG);
    assert_eq!(*on_light[0].weight(), 20 * KG);
}

#[test]
fn names_of_the_bar_kinds_are_read() {
    for name in ["d", "db", "dumbbell"] {
        assert_eq!(BarKind::from_str(name), Ok(BarKind::Dumbbell));
    }
    for name in ["b", "bb", "barbell"] {
        assert_eq!(BarKind::from_str(name), Ok(BarKind::Barbell));
    }
    for name in ["", "D", "bar", " b"] {
        assert_eq!(BarKind::from_str(name), Err("Invalid bar kind".to_string()));
    }
}

#[test]
fn a_requirement_for_the_other_kind_meets_no_state() {
    let gym = Gym::new(&plate_r(5 * KG, 8), &[barbell()]);
    let long = Requirement::new(25 * KG, BarKind::Barbell);
    let short = Requirement::new(25 * KG, BarKind::Dumbbell);
    assert_eq!(gym.find_states_of_kind(BarKind::Barbell, long).len(), 1);
    assert!(gym.find_states_of_kind(BarKind::Barbell, short).is_empty());
    assert!(gym.find_states_of_kind(BarKind::Dumbbell, long).is_empty());
    assert_eq!(
        gym.find_optimal_sequence(BarKind::Barbell, &[long, short]),
        Err(GymError::ImpossibleRequirement(short))
    );
    assert!(gym.order_by_kind_ordered(BarKind::Barbell, &[long]).is_ok());
}

#[test]
fn plans_cost_the_same_there_and_back() {
    let bar = barbell();
    let gym = Gym::new(&ladder_plates(), &[bar]);
    let half = 5 * KG / 2;
    let two = Requirement::new(15 * KG + 2 * (5 * KG + half), BarKind::Barbell);
    let one = Requirement::new(15 * KG + 2 * 10 * KG, BarKind::Barbell);
    let there = gym.find_optimal_sequence(BarKind::Barbell, &[two, one]).expect("a plan");
    let back = gym.find_optimal_sequence(BarKind::Barbell, &[one, two]).expect("a plan");
    assert_eq!(there.cost, 1);
    assert_eq!(back.cost, 1);
    let same = gym.find_optimal_sequence(BarKind::Barbell, &[one, one]).expect("a plan");
    assert_eq!(same.cost, 0);
}
