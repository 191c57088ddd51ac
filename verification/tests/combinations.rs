use combinatory::Combinatory;

const SIDES: &[&'static str] = &["Soup", "Bread and butter"];
const MAIN: &[&'static str] = &["Chicken", "Burger with fries"];
const DESSERTS: &[&'static str] = &["Vanilla ice cream", "Souffle"];

fn menu_dims() -> Vec<Vec<&'static str>> {
    vec![SIDES.to_vec(), MAIN.to_vec(), DESSERTS.to_vec()]
}

#[test]
fn test_all_combinations() {
    let possible_menus = Combinatory::new(menu_dims())
        .ref_combinations()
        .into_iter()
        .enumerate()
        .map(|(menu_index, possible_menu)| {
            format!(
                "{} - {}",
                menu_index + 1,
                possible_menu
                    .into_iter()
                    .map(|string| string.to_string())
                    .collect::<Vec<_>>()
                    .join(", ")
            )
        })
        .collect::<Vec<_>>()
        .join("\n");

    println!("{possible_menus}");

    assert_eq!(
        possible_menus,
        "1 - Soup, Chicken, Vanilla ice cream
2 - Soup, Chicken, Souffle
3 - Soup, Burger with fries, Vanilla ice cream
4 - Soup, Burger with fries, Souffle
5 - Bread and butter, Chicken, Vanilla ice cream
6 - Bread and butter, Chicken, Souffle
7 - Bread and butter, Burger with fries, Vanilla ice cream
8 - Bread and butter, Burger with fries, Souffle"
    );
}

const NUMS: &[&'static str] = &["1", "2", "3", "4", "5"];
const LETTERS: &[&'static str] = &["A", "B", "C", "D"];
const COLORS: &[&'static str] = &["Red", "Green", "Blue"];

fn color_dims() -> Vec<Vec<&'static str>> {
    vec![NUMS.to_vec(), LETTERS.to_vec(), COLORS.to_vec()]
}

#[test]
fn test_one_combination() {
    let combinatory = Combinatory::new(color_dims());
    let combination = combinatory.combination(31).unwrap();
    let combination_as_string = format!(
        "{}",
        combination
            .into_iter()
            .map(|string| string.to_string())
            .collect::<Vec<_>>()
            .join(", ")
    );
    assert_eq!(combination_as_string, "3, C, Green");
}

#[test]
fn total_count_is_product_of_lengths() {
    assert_eq!(Combinatory::new(color_dims()).total_count(), 60);
    assert_eq!(Combinatory::new(menu_dims()).total_count(), 8);
    assert_eq!(Combinatory::new(vec![vec![1, 2, 3]]).total_count(), 3);
    assert_eq!(
        Combinatory::new(vec![vec![1, 2], Vec::new(), vec![3]]).total_count(),
        0
    );
}

#[test]
fn combination_draws_one_element_per_dimension() {
    let c = Combinatory::new(color_dims());
    for index in 0..60 {
        let combo = c.combination(index).expect("index below total_count");
        assert_eq!(combo.len(), 3);
        assert!(NUMS.contains(combo[0]));
        assert!(LETTERS.contains(combo[1]));
        assert!(COLORS.contains(combo[2]));
    }
}

#[test]
fn combination_out_of_range_is_none() {
    let c = Combinatory::new(color_dims());
    assert!(c.combination(60).is_none());
    assert!(c.combination(61).is_none());
    assert!(c.combination(usize::MAX).is_none());
}

#[test]
fn combination_with_empty_dimension_is_none() {
    let c: Combinatory<u32> = Combinatory::new(vec![vec![1, 2], Vec::new()]);
    assert_eq!(c.total_count(), 0);
    assert!(c.combination(0).is_none());
    assert!(c.ref_combinations().is_empty());
}

#[test]
fn decode_forward_index_31() {
    // Dimension lengths [5, 4, 3]: index 31 decodes to sub-indices (2, 2, 1).
    let c = Combinatory::new(color_dims());
    let combo = c.combination(31).unwrap();
    assert_eq!(*combo[0], NUMS[2]);
    assert_eq!(*combo[1], LETTERS[2]);
    assert_eq!(*combo[2], COLORS[1]);
}

fn owned(combo: Vec<&&'static str>) -> Vec<&'static str> {
    combo.into_iter().copied().collect()
}

#[test]
fn forward_enumeration_order_last_dimension_fastest() {
    let c = Combinatory::new(menu_dims());
    let rows: Vec<Vec<&str>> = c.ref_combinations().into_iter().map(owned).collect();
    let expected = vec![
        vec!["Soup", "Chicken", "Vanilla ice cream"],
        vec!["Soup", "Chicken", "Souffle"],
        vec!["Soup", "Burger with fries", "Vanilla ice cream"],
        vec!["Soup", "Burger with fries", "Souffle"],
        vec!["Bread and butter", "Chicken", "Vanilla ice cream"],
        vec!["Bread and butter", "Chicken", "Souffle"],
        vec!["Bread and butter", "Burger with fries", "Vanilla ice cream"],
        vec!["Bread and butter", "Burger with fries", "Souffle"],
    ];
    assert_eq!(rows, expected);
}

fn pulled(c: &mut Combinatory<&'static str>, from_back: bool) -> Option<Vec<&'static str>> {
    let combo = if from_back { c.next_back() } else { c.next() };
    combo.map(owned)
}

fn check_meeting_in_the_middle(pattern: &[bool]) {
    let full: Vec<Vec<&str>> = Combinatory::new(menu_dims())
        .ref_combinations()
        .into_iter()
        .map(owned)
        .collect();
    let mut c = Combinatory::new(menu_dims());
    let mut yielded: Vec<Vec<&str>> = Vec::new();
    let mut step = 0;
    loop {
        let from_back = pattern[step % pattern.len()];
        step += 1;
        match pulled(&mut c, from_back) {
            Some(combo) => yielded.push(combo),
            None => break,
        }
    }
    // Exhaustion is terminal for both ends.
    assert!(c.next().is_none());
    assert!(c.next_back().is_none());
    // Exactly total_count combinations, each exactly once.
    assert_eq!(yielded.len(), full.len());
    for combo in &full {
        assert_eq!(
            yielded.iter().filter(|y| *y == combo).count(),
            1,
            "combination yielded other than exactly once for pattern {pattern:?}"
        );
    }
}

#[test]
fn meeting_in_the_middle_all_interleavings() {
    check_meeting_in_the_middle(&[false]);
    check_meeting_in_the_middle(&[true]);
    check_meeting_in_the_middle(&[false, true]);
    check_meeting_in_the_middle(&[true, false]);
    check_meeting_in_the_middle(&[false, false, true]);
    check_meeting_in_the_middle(&[true, true, false]);
}

#[test]
fn forward_pulls_follow_index_order() {
    let mut c = Combinatory::new(menu_dims());
    let full: Vec<Vec<&str>> = c.ref_combinations().into_iter().map(owned).collect();
    for expected in &full {
        assert_eq!(pulled(&mut c, false).as_ref(), Some(expected));
    }
    assert!(c.next().is_none());
}

#[test]
fn backward_pulls_follow_reverse_index_order() {
    let mut c = Combinatory::new(menu_dims());
    let full: Vec<Vec<&str>> = c.ref_combinations().into_iter().map(owned).collect();
    for expected in full.iter().rev() {
        assert_eq!(pulled(&mut c, true).as_ref(), Some(expected));
    }
    assert!(c.next_back().is_none());
    assert!(c.next().is_none());
}

#[test]
fn ref_combinations_is_idempotent() {
    let c = Combinatory::new(color_dims());
    let first: Vec<Vec<&str>> = c.ref_combinations().into_iter().map(owned).collect();
    let second: Vec<Vec<&str>> = c.ref_combinations().into_iter().map(owned).collect();
    assert_eq!(first, second);
    // Cursor pulls do not disturb the enumeration either.
    let mut c = c;
    c.next();
    c.next_back();
    let third: Vec<Vec<&str>> = c.ref_combinations().into_iter().map(owned).collect();
    assert_eq!(first, third);
}

#[test]
fn single_dimension_combinations_in_source_order() {
    let c = Combinatory::new(vec![vec!["a", "b", "c"]]);
    assert_eq!(c.total_count(), 3);
    let rows: Vec<Vec<&str>> = c.ref_combinations().into_iter().map(owned).collect();
    assert_eq!(rows, vec![vec!["a"], vec!["b"], vec!["c"]]);
    let mut c = c;
    assert_eq!(pulled(&mut c, false), Some(vec!["a"]));
    assert_eq!(pulled(&mut c, true), Some(vec!["c"]));
    assert_eq!(pulled(&mut c, false), Some(vec!["b"]));
    assert_eq!(pulled(&mut c, false), None);
    assert_eq!(pulled(&mut c, true), None);
}

#[test]
fn direction_setters_do_not_change_decoding() {
    let forward = Combinatory::new(color_dims());
    let expected: Vec<Vec<&str>> = forward.ref_combinations().into_iter().map(owned).collect();

    let explicit_forward = Combinatory::new(color_dims()).forward_direction();
    let rows: Vec<Vec<&str>> = explicit_forward
        .ref_combinations()
        .into_iter()
        .map(owned)
        .collect();
    assert_eq!(rows, expected);

    // The backward setter stores the same flag value as the forward one, so
    // decoding is unchanged.
    let backward = Combinatory::new(color_dims()).backward_direction();
    let rows: Vec<Vec<&str>> = backward.ref_combinations().into_iter().map(owned).collect();
    assert_eq!(rows, expected);
}

#[test]
fn empty_dimension_exhausts_cursors_immediately() {
    let mut c: Combinatory<u32> = Combinatory::new(vec![Vec::new(), vec![1, 2, 3]]);
    assert!(c.next().is_none());
    assert!(c.next_back().is_none());
}
