use gym_planner::combinatorics::order_by_key;
use gym_planner::distances::{DistanceTable, UNREACHABLE};
use gym_planner::gym::bars_of;
use gym_planner::planner::{optimal_sequence, Plan};
use gym_planner::states::gym_states;
use gym_planner::{Bar, BarKind, Dumbbell, GymState, GymStateId, Plate};

fn ids(numbers: &[usize]) -> Vec<GymStateId> {
    numbers.iter().map(|n| GymStateId(*n)).collect()
}

fn loading(weights: &[u64], bar: Bar) -> Dumbbell {
    Dumbbell::new(weights.iter().map(|w| Plate::new(*w, bar.gauge())).collect(), bar)
}

fn line_table() -> DistanceTable {
    let mut entries = Vec::new();
    for a in 0..4usize {
        for b in 0..4usize {
            entries.push((a, b, (if a > b { a - b } else { b - a }) as u32));
        }
    }
    entries.push((4, 4, 0));
    DistanceTable::from_entries(5, &entries)
}

fn cost_of(table: &DistanceTable, path: &[GymStateId]) -> u32 {
    let mut cost: u32 = 0;
    for pair in path.windows(2) {
        cost = cost.saturating_add(table.get(pair[0], pair[1]));
    }
    cost
}

fn cheapest_by_trying_all(table: &DistanceTable, layers: &[Vec<GymStateId>]) -> u32 {
    let mut best = UNREACHABLE;
    let mut picks = vec![0usize; layers.len()];
    loop {
        let path: Vec<GymStateId> =
            picks.iter().enumerate().map(|(i, p)| layers[i][*p]).collect();
        best = best.min(cost_of(table, &path));
        let mut at = layers.len();
        loop {
            if at == 0 {
                return best;
            }
            at -= 1;
            picks[at] += 1;
            if picks[at] < layers[at].len() {
                break;
            }
            picks[at] = 0;
        }
    }
}

#[test]
fn table_knows_what_its_entries_say() {
    let table = DistanceTable::from_entries(3, &vec![(0, 1, 4), (1, 0, 5), (0, 1, 6), (7, 0, 1)]);
    assert_eq!(table.len(), 3);
    assert_eq!(table.get(GymStateId(0), GymStateId(1)), 6);
    assert_eq!(table.get(GymStateId(1), GymStateId(0)), 5);
    assert_eq!(table.get(GymStateId(2), GymStateId(2)), UNREACHABLE);
    assert_eq!(table.get(GymStateId(0), GymStateId(3)), UNREACHABLE);
}

#[test]
fn no_layers_no_cost() {
    let found = optimal_sequence(&vec![], &line_table());
    assert_eq!(found, Ok(Plan { states: vec![], cost: 0 }));
}

#[test]
fn single_layer_takes_its_first_candidate() {
    let found = optimal_sequence(&vec![ids(&[3, 1, 2])], &line_table());
    assert_eq!(found, Ok(Plan { states: ids(&[3]), cost: 0 }));
}

#[test]
fn empty_layer_fails_with_its_position() {
    let layers = vec![ids(&[0]), vec![], ids(&[1]), vec![]];
    assert_eq!(optimal_sequence(&layers, &line_table()), Err(1));
}

#[test]
fn planner_adds_up_the_distances_of_its_path() {
    let table = line_table();
    let layers = vec![ids(&[0, 3]), ids(&[2, 1]), ids(&[3, 0]), ids(&[1])];
    let plan = optimal_sequence(&layers, &table).expect("a plan exists");
    assert_eq!(plan.states.len(), layers.len());
    for (state, layer) in plan.states.iter().zip(layers.iter()) {
        assert!(layer.contains(state));
    }
    assert_eq!(plan.cost, cost_of(&table, &plan.states));
    assert_eq!(plan.cost, 3);
}

#[test]
fn planner_is_as_cheap_as_trying_every_path() {
    let table = line_table();
    let cases = vec![
        vec![ids(&[0, 3]), ids(&[2, 1]), ids(&[3, 0]), ids(&[1])],
        vec![ids(&[1, 2, 3]), ids(&[0]), ids(&[3, 2]), ids(&[0, 1, 2, 3])],
        vec![ids(&[3]), ids(&[0, 1]), ids(&[2, 3, 0])],
        vec![ids(&[0, 4]), ids(&[4, 2]), ids(&[3, 4])],
    ];
    for layers in cases {
        let plan = optimal_sequence(&layers, &table).expect("a plan exists");
        assert_eq!(plan.cost, cheapest_by_trying_all(&table, &layers));
    }
}

#[test]
fn ties_go_to_the_smaller_state_and_the_earlier_end() {
    let table = line_table();
    let layers = vec![ids(&[3, 1]), ids(&[2]), ids(&[3, 1])];
    let plan = optimal_sequence(&layers, &table).expect("a plan exists");
    assert_eq!(plan, Plan { states: ids(&[1, 2, 3]), cost: 2 });
}

#[test]
fn planner_goes_round_what_is_cut_off() {
    let table = line_table();
    let layers = vec![ids(&[4, 0]), ids(&[1, 4]), ids(&[2])];
    let plan = optimal_sequence(&layers, &table).expect("a plan exists");
    assert_eq!(plan, Plan { states: ids(&[0, 1, 2]), cost: 2 });
    let layers = vec![ids(&[4]), ids(&[4]), ids(&[4])];
    let plan = optimal_sequence(&layers, &table).expect("a plan exists");
    assert_eq!(plan, Plan { states: ids(&[4, 4, 4]), cost: 0 });
}

#[test]
fn planner_fails_with_the_last_layer_where_nothing_connects() {
    let table = line_table();
    let layers = vec![ids(&[0, 1]), ids(&[4]), ids(&[2])];
    assert_eq!(optimal_sequence(&layers, &table), Err(2));
    let layers = vec![ids(&[0]), ids(&[9])];
    assert_eq!(optimal_sequence(&layers, &table), Err(1));
}

#[test]
fn costs_stop_at_unreachable() {
    let big = UNREACHABLE - 1;
    let table = DistanceTable::from_entries(3, &vec![(0, 1, big), (1, 2, big), (0, 2, 7)]);
    assert_eq!(optimal_sequence(&vec![ids(&[0]), ids(&[1]), ids(&[2])], &table), Err(2));
    let plan = optimal_sequence(&vec![ids(&[0]), ids(&[1])], &table).expect("a plan exists");
    assert_eq!(plan.cost, big);
}

#[test]
fn positions_come_by_key_and_keep_their_order() {
    assert_eq!(order_by_key(&vec![30, 10, 20, 10, 30]), vec![1, 3, 2, 0, 4]);
    assert_eq!(order_by_key(&vec![]), Vec::<usize>::new());
}

#[test]
fn loadings_are_adjacent_by_their_outermost_plate() {
    let bar = Bar::new(15, 5, BarKind::Barbell);
    let other = Bar::new(16, 5, BarKind::Barbell);
    let short = loading(&[10, 5], bar);
    let long = loading(&[10, 5, 5], bar);
    assert!(short.adjacent(&long));
    assert!(long.adjacent(&short));
    assert!(!short.adjacent(&short));
    assert!(!loading(&[20, 5], bar).adjacent(&loading(&[15, 10, 5], bar)));
    assert!(!loading(&[10], bar).adjacent(&loading(&[10, 5, 5], bar)));
    assert!(!short.adjacent(&loading(&[10, 5, 5], other)));
    assert!(loading(&[], bar).adjacent(&loading(&[10], bar)));
    assert!(short.same_as(&loading(&[10, 5], bar)));
    assert!(!short.same_as(&long));
}

#[test]
fn states_are_adjacent_when_one_bar_changes_by_one_plate() {
    let first = Bar::new(15, 5, BarKind::Barbell);
    let second = Bar::new(10, 5, BarKind::Barbell);
    let base = GymState::new(vec![loading(&[10], first), loading(&[5], second)]);
    let one_more = GymState::new(vec![loading(&[10, 5], first), loading(&[5], second)]);
    let both_more = GymState::new(vec![loading(&[10, 5], first), loading(&[5, 5], second)]);
    let swapped = GymState::new(vec![loading(&[5], second), loading(&[10, 5], first)]);
    let other_plate = GymState::new(vec![loading(&[10], first), loading(&[10], second)]);
    assert!(base.adjacent(&one_more));
    assert!(one_more.adjacent(&base));
    assert!(base.adjacent(&swapped));
    assert!(!base.adjacent(&base));
    assert!(!base.adjacent(&both_more));
    assert!(one_more.adjacent(&both_more));
    assert!(!base.adjacent(&other_plate));
    assert_eq!(base.plates(), 2);
    assert_eq!(one_more.plates(), 3);
    assert_eq!(both_more.plates(), 4);
    assert_eq!(base.len(), 2);
    assert_eq!(base.get(&second).map(|d| *d.weight()), Some(20));
    assert!(base.get(&Bar::new(1, 5, BarKind::Barbell)).is_none());
}

#[test]
fn states_are_every_combination_of_the_options() {
    let first = Bar::new(15, 5, BarKind::Barbell);
    let second = Bar::new(10, 5, BarKind::Barbell);
    let options = vec![
        vec![loading(&[], first), loading(&[5], first), loading(&[5, 5], first)],
        vec![loading(&[], second), loading(&[5], second)],
    ];
    let states = gym_states(&vec![first, second], &options);
    let lifted: Vec<(u64, u64)> =
        states.iter().map(|s| (*s.at(0).weight(), *s.at(1).weight())).collect();
    assert_eq!(lifted, vec![(15, 10), (15, 20), (25, 10), (25, 20), (35, 10), (35, 20)]);
    let none = gym_states(&vec![], &vec![]);
    assert_eq!(none.len(), 1);
    assert_eq!(none[0].len(), 0);
}

#[test]
fn distances_count_the_plate_changes_between_states() {
    let bar = Bar::new(15, 5, BarKind::Barbell);
    let states = vec![
        GymState::new(vec![loading(&[], bar)]),
        GymState::new(vec![loading(&[10], bar)]),
        GymState::new(vec![loading(&[10, 5], bar)]),
        GymState::new(vec![loading(&[5], bar)]),
        GymState::new(vec![loading(&[20, 5], bar)]),
    ];
    let table = DistanceTable::measure(&states);
    assert_eq!(table.len(), 5);
    let d = |a: usize, b: usize| table.get(GymStateId(a), GymStateId(b));
    assert_eq!(d(0, 0), 0);
    assert_eq!(d(0, 1), 1);
    assert_eq!(d(1, 0), 1);
    assert_eq!(d(0, 2), 2);
    assert_eq!(d(2, 3), 3);
    assert_eq!(d(3, 2), 3);
    assert_eq!(d(4, 4), 0);
    assert_eq!(d(0, 4), UNREACHABLE);
    assert_eq!(d(4, 2), UNREACHABLE);
}

#[test]
fn bars_of_a_kind_are_listed_once() {
    let long = Bar::new(15, 5, BarKind::Barbell);
    let short = Bar::new(2, 5, BarKind::Dumbbell);
    let thick = Bar::new(15, 6, BarKind::Barbell);
    let bars = vec![long, short, thick, long, short];
    assert_eq!(bars_of(&bars, BarKind::Barbell), vec![long, thick]);
    assert_eq!(bars_of(&bars, BarKind::Dumbbell), vec![short]);
}
