use gift_exchange::Family;
use gift_exchange::find_assignment;

fn family(names: &[&str]) -> Family {
    Family {
        people: names.iter().map(|s| s.to_string()).collect(),
        first: false,
    }
}

/// Checks the success invariants: the output has one entry per person, is a
/// permutation of all the names, and no two adjacent entries (including the
/// wraparound pair) come from the same family. Assumes names are distinct
/// across families, so a name identifies its family.
fn check_valid(families: &[Vec<String>], out: &[String]) {
    let total: usize = families.iter().map(|f| f.len()).sum();
    assert_eq!(out.len(), total);
    let mut all: Vec<String> = families.iter().flatten().cloned().collect();
    let mut sorted_out = out.to_vec();
    all.sort();
    sorted_out.sort();
    assert_eq!(all, sorted_out, "output must be a permutation of all names");
    let family_of = |name: &String| -> usize {
        families.iter().position(|f| f.contains(name)).unwrap()
    };
    for i in 0..out.len() {
        let j = (i + 1) % out.len();
        assert_ne!(
            family_of(&out[i]),
            family_of(&out[j]),
            "adjacent entries {} and {} share a family",
            out[i],
            out[j]
        );
    }
}

#[test]
fn test_infeasible() {
    let people = vec![
        Family {
            people: vec!["Appa".to_owned(), "Alph".to_owned(), "Alex".to_owned()],
            first: false,
        },
        Family {
            people: vec!["Bob".to_owned()],
            first: false,
        },
    ];
    assert_eq!(find_assignment(people), None);
}

#[test]
fn test_family_constructor() {
    let family1 = Family {
        people: vec!["Appa".to_owned(), "Alph".to_owned(), "Alex".to_owned()],
        first: false,
    };
    let family2 = Family::new(vec!["Appa", "Alph", "Alex"]);
    assert_eq!(family1, family2);
    let family3 = Family::new2(&["Appa", "Alph", "Alex"][..]);
    assert_eq!(family1, family3);
}

#[test]
fn empty_input_has_no_solution() {
    assert_eq!(find_assignment(vec![]), None);
}

#[test]
fn two_pairs_make_a_valid_cycle() {
    let rosters = vec![
        vec!["A1".to_owned(), "A2".to_owned()],
        vec!["B1".to_owned(), "B2".to_owned()],
    ];
    let people = vec![family(&["A1", "A2"]), family(&["B1", "B2"])];
    let out = find_assignment(people).expect("two equal pairs are feasible");
    check_valid(&rosters, &out);
}

#[test]
fn dominant_family_is_infeasible() {
    // One family of size 5 against three others summing to 3: 5 > 3 + 1.
    let people = vec![
        family(&["a", "b", "c", "d", "e"]),
        family(&["x"]),
        family(&["y"]),
        family(&["z"]),
    ];
    assert_eq!(find_assignment(people), None);
}

#[test]
fn balanced_families_succeed() {
    // Largest family of size 4 against others summing to 3: 4 <= 3 + 1.
    let people = vec![
        family(&["a", "b", "c", "d"]),
        family(&["x"]),
        family(&["y"]),
        family(&["z"]),
    ];
    let out = find_assignment(people).expect("k <= m + 1 must succeed");
    assert_eq!(out.len(), 7);
    // The linear (non-wraparound) adjacency always holds on success.
    let rosters = vec![
        vec!["a".to_owned(), "b".to_owned(), "c".to_owned(), "d".to_owned()],
        vec!["x".to_owned()],
        vec!["y".to_owned()],
        vec!["z".to_owned()],
    ];
    let family_of = |name: &String| -> usize {
        rosters.iter().position(|f| f.contains(name)).unwrap()
    };
    for i in 0..out.len() - 1 {
        assert_ne!(family_of(&out[i]), family_of(&out[i + 1]));
    }
}

#[test]
fn strictly_balanced_families_make_a_cycle() {
    // No family holds more than half the people: the cycle closes too.
    let rosters = vec![
        vec!["a1".to_owned(), "a2".to_owned(), "a3".to_owned()],
        vec!["b1".to_owned(), "b2".to_owned()],
        vec!["c1".to_owned(), "c2".to_owned(), "c3".to_owned()],
    ];
    let people = vec![
        family(&["a1", "a2", "a3"]),
        family(&["b1", "b2"]),
        family(&["c1", "c2", "c3"]),
    ];
    let out = find_assignment(people).expect("balanced input is feasible");
    check_valid(&rosters, &out);
}

#[test]
fn boundary_family_succeeds_linearly() {
    // The largest family holds exactly one more person than all the rest
    // together (k == m + 1). The construction succeeds and keeps same-family
    // entries apart within the sequence, but the first and the last entry
    // must then both come from the large family, so the wraparound pair is
    // not separated; only strictly balanced inputs close the cycle.
    let people = vec![family(&["a1", "a2"]), family(&["b"])];
    let out = find_assignment(people).expect("k == m + 1 succeeds");
    assert_eq!(out.len(), 3);
    let mut sorted = out.clone();
    sorted.sort();
    assert_eq!(sorted, vec!["a1".to_owned(), "a2".to_owned(), "b".to_owned()]);
    for i in 0..out.len() - 1 {
        let same = out[i].starts_with('a') && out[i + 1].starts_with('a');
        assert!(!same, "adjacent same-family entries {} {}", out[i], out[i + 1]);
    }
    assert!(out[0].starts_with('a') && out[2].starts_with('a'));
}

#[test]
fn single_person_gets_a_trivial_cycle() {
    let people = vec![family(&["Solo"])];
    let out = find_assignment(people).expect("a single person is assignable");
    assert_eq!(out, vec!["Solo".to_owned()]);
}

#[test]
fn rerunning_fresh_input_gives_equally_valid_output() {
    let rosters = vec![
        vec!["p".to_owned(), "q".to_owned()],
        vec!["r".to_owned(), "s".to_owned()],
        vec!["t".to_owned()],
    ];
    let build = || vec![family(&["p", "q"]), family(&["r", "s"]), family(&["t"])];
    let out1 = find_assignment(build()).expect("feasible");
    let out2 = find_assignment(build()).expect("feasible");
    check_valid(&rosters, &out1);
    check_valid(&rosters, &out2);
    assert_eq!(out1, out2, "the construction is deterministic");
}

#[test]
fn constructors_copy_their_input() {
    let names = vec!["One", "Two"];
    let f1 = Family::new(names.clone());
    let f2 = Family::new(names.clone());
    assert_eq!(f1, f2);
    assert_eq!(names, vec!["One", "Two"]);
}
