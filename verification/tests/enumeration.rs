use gym_planner::enumerate::{available_dumbbells, distinct_loadings, dumbbells};
use gym_planner::inventory::usable_plates_of;
use gym_planner::{Bar, BarKind, Dumbbell, Plate, Requirement};

fn plates(weight: u64, gauge: u64, count: usize) -> Vec<Plate> {
    vec![Plate::new(weight, gauge); count]
}

fn weights_of(dumbbell: &Dumbbell) -> Vec<u64> {
    dumbbell.plates().iter().map(|p| p.weight()).collect()
}

#[test]
fn required_similar_plates_by_kind() {
    assert_eq!(BarKind::Dumbbell.required_similar_plates(), 4);
    assert_eq!(BarKind::Barbell.required_similar_plates(), 2);
}

#[test]
fn plate_and_bar_keep_what_they_are_given() {
    let plate = Plate::new(2500, 50);
    assert_eq!(plate.weight(), 2500);
    assert_eq!(plate.gauge(), 50);
    let bar = Bar::new(15000, 50, BarKind::Barbell);
    assert_eq!(bar.weight(), 15000);
    assert_eq!(bar.gauge(), 50);
    assert_eq!(*bar.kind(), BarKind::Barbell);
}

#[test]
fn lifted_weight_is_bar_and_twice_the_plates() {
    let bar = Bar::new(15, 5, BarKind::Barbell);
    let dumbbell = Dumbbell::new(vec![Plate::new(10, 5), Plate::new(3, 5)], bar);
    assert_eq!(*dumbbell.weight(), 15 + 2 * 13);
    assert_eq!(*dumbbell.bar(), bar);
    assert_eq!(dumbbell.plates().len(), 2);
    let bare = Dumbbell::new(vec![], bar);
    assert_eq!(*bare.weight(), 15);
}

#[test]
fn requirement_matches_weight_and_kind() {
    let bar = Bar::new(15, 5, BarKind::Barbell);
    let dumbbell = Dumbbell::new(vec![Plate::new(10, 5)], bar);
    let wanted = Requirement::new(35, BarKind::Barbell);
    assert_eq!(wanted.weight(), 35);
    assert_eq!(wanted.bar_kind(), BarKind::Barbell);
    assert!(wanted.matches(&dumbbell));
    assert!(!Requirement::new(35, BarKind::Dumbbell).matches(&dumbbell));
    assert!(!Requirement::new(36, BarKind::Barbell).matches(&dumbbell));
}

#[test]
fn usable_plates_divide_by_the_plates_a_kind_needs() {
    let mut inventory = plates(5, 50, 7);
    inventory.extend(plates(10, 50, 4));
    inventory.extend(plates(20, 60, 8));
    inventory.extend(plates(1, 50, 1));
    let barbell = Bar::new(15, 50, BarKind::Barbell);
    let dumbbell = Bar::new(2, 50, BarKind::Dumbbell);
    let on_barbell: Vec<u64> =
        usable_plates_of(&inventory, &barbell).iter().map(|p| p.weight()).collect();
    assert_eq!(on_barbell, vec![10, 10, 5, 5, 5]);
    let on_dumbbell: Vec<u64> =
        usable_plates_of(&inventory, &dumbbell).iter().map(|p| p.weight()).collect();
    assert_eq!(on_dumbbell, vec![10, 5]);
    let wide = Bar::new(15, 60, BarKind::Barbell);
    assert_eq!(usable_plates_of(&inventory, &wide).len(), 4);
    let odd = Bar::new(15, 70, BarKind::Barbell);
    assert!(usable_plates_of(&inventory, &odd).is_empty());
}

#[test]
fn subsets_of_the_usable_plates_are_mounted_once_each() {
    let bar = Bar::new(15, 50, BarKind::Barbell);
    let slots = vec![Plate::new(10, 50), Plate::new(5, 50), Plate::new(5, 50)];
    let found = available_dumbbells(&slots, &bar);
    let lists: Vec<Vec<u64>> = found.iter().map(weights_of).collect();
    assert_eq!(
        lists,
        vec![vec![], vec![10], vec![5], vec![10, 5], vec![5, 5], vec![10, 5, 5]]
    );
}

#[test]
fn given_subsets_are_mounted_in_their_order() {
    let bar = Bar::new(15, 50, BarKind::Barbell);
    let slots = vec![Plate::new(10, 50), Plate::new(5, 50), Plate::new(5, 50)];
    let subsets = vec![vec![1], vec![0, 2], vec![2], vec![0, 1], vec![]];
    let found = distinct_loadings(&slots, &subsets, &bar);
    let lists: Vec<Vec<u64>> = found.iter().map(weights_of).collect();
    assert_eq!(lists, vec![vec![5], vec![10, 5], vec![]]);
    assert_eq!(*found[1].weight(), 45);
}

#[test]
fn loadings_come_by_ascending_weight() {
    let mut inventory = plates(5, 50, 4);
    inventory.extend(plates(10, 50, 2));
    inventory.extend(plates(20, 60, 2));
    let bar = Bar::new(15, 50, BarKind::Barbell);
    let found = dumbbells(&inventory, &bar).expect("the bar keeps the limits");
    let lists: Vec<Vec<u64>> = found.iter().map(weights_of).collect();
    assert_eq!(
        lists,
        vec![vec![], vec![5], vec![10], vec![5, 5], vec![10, 5], vec![10, 5, 5]]
    );
    let weights: Vec<u64> = found.iter().map(|d| *d.weight()).collect();
    assert_eq!(weights, vec![15, 25, 35, 35, 45, 55]);
}

#[test]
fn generated_loadings_fit_the_bar_and_the_inventory() {
    let mut inventory = plates(5, 50, 5);
    inventory.extend(plates(10, 50, 3));
    inventory.extend(plates(10, 60, 6));
    let bar = Bar::new(15, 50, BarKind::Barbell);
    let found = dumbbells(&inventory, &bar).expect("the bar keeps the limits");
    assert_eq!(found.len(), 6);
    for dumbbell in &found {
        let list = dumbbell.plates();
        let mut side = 0;
        for (i, plate) in list.iter().enumerate() {
            assert_eq!(plate.gauge(), bar.gauge());
            if i > 0 {
                assert!(list[i - 1].weight() >= plate.weight());
            }
            side += plate.weight();
        }
        assert!(list.iter().filter(|p| p.weight() == 5).count() <= 2);
        assert!(list.iter().filter(|p| p.weight() == 10).count() <= 1);
        assert_eq!(*dumbbell.weight(), bar.weight() + 2 * side);
    }
}

#[test]
fn bar_without_fitting_plates_has_the_bare_loading_only() {
    let bar = Bar::new(15, 70, BarKind::Barbell);
    let found = dumbbells(&plates(5, 50, 4), &bar).expect("the bar keeps the limits");
    assert_eq!(found.len(), 1);
    assert!(found[0].plates().is_empty());
    assert_eq!(*found[0].weight(), 15);
}

#[test]
fn plates_are_mounted_heaviest_first() {
    let bar = Bar::new(15, 5, BarKind::Barbell);
    let dumbbell = Dumbbell::new(
        vec![Plate::new(5, 5), Plate::new(10, 5), Plate::new(5, 5), Plate::new(20, 5)],
        bar,
    );
    assert_eq!(weights_of(&dumbbell), vec![20, 10, 5, 5]);
    assert_eq!(*dumbbell.weight(), 15 + 2 * 40);
    let kept = Dumbbell::new(vec![Plate::new(10, 5), Plate::new(5, 5)], bar);
    assert_eq!(weights_of(&kept), vec![10, 5]);
    assert!(Dumbbell::new(vec![Plate::new(5, 5), Plate::new(10, 5)], bar).same_as(&kept));
}

#[test]
fn bars_beyond_the_limits_are_not_enumerated() {
    let bar = Bar::new(15, 50, BarKind::Barbell);
    assert!(dumbbells(&plates(5, 50, 64), &bar).is_none());
    let heavy = vec![Plate::new(u64::MAX / 2, 50), Plate::new(u64::MAX / 2, 50)];
    assert!(dumbbells(&heavy, &bar).is_none());
    assert_eq!(dumbbells(&heavy, &Bar::new(15, 60, BarKind::Barbell)).map(|d| d.len()), Some(1));
}
