use std::collections::HashSet;

use treasure_hunt::clues::arrangement::Arrangements;
use treasure_hunt::clues::{Clue, Clues};
use treasure_hunt::randomness::thread_rng;

#[test]
fn test_arrangements() {
    fn are_same_clues(x: &Clues, y: &Clues) -> bool {
        let mut a = x.0.clone();
        a.sort_by_key(|c| c.poem.clone());

        let mut b = y.0.clone();
        b.sort_by_key(|c| c.poem.clone());

        a == b
    }

    let clues = Clues(vec![
        Clue::mock(0, "A"),
        Clue::mock(1, "B"),
        Clue::mock(2, "C"),
        Clue::mock(3, "D"),
        Clue::mock(4, "D"),
        Clue::mock(5, "D"),
        Clue::mock(6, "E"),
        Clue::mock(7, "E"),
        Clue::mock(8, "F"),
        Clue::mock(9, "F"),
        Clue::mock(10, "G"),
        Clue::mock(11, "G"),
        Clue::mock(12, "H"),
        Clue::mock(13, "H"),
    ]);

    let mut rng = thread_rng();
    let mut generator = Arrangements::new(clues.clone(), &mut rng)
        .unwrap()
        .iterator();
    let arrangements: Vec<Clues> = (0..4).map(|_| generator.next(&mut rng)).collect();
    for arrangement in &arrangements {
        assert!(
            are_same_clues(arrangement, &clues),
            "Arrangements should have same clues as input"
        );
        assert!(
            arrangement
                .0
                .iter()
                .zip(arrangement.0.iter().skip(1))
                .all(|(x, y)| x.location != y.location),
            "Arrangements never repeat the same location twice in a row: {:?}",
            arrangement
                .0
                .iter()
                .map(|c| (&c.location, &c.poem))
                .collect::<Vec<_>>(),
        );
    }
    for i in 0..clues.0.len() {
        let mut used_locations = HashSet::new();
        for arrangement in &arrangements {
            used_locations.insert(&arrangement.0[i].location);
        }
        assert_eq!(
            used_locations.len(),
            arrangements.len(),
            "First few arrangements don't send multiple teams to the same location"
        );
    }
}

#[test]
fn test_generator_tail_keeps_the_catalog() {
    fn are_same_clues(x: &Clues, y: &Clues) -> bool {
        let mut a = x.0.clone();
        a.sort_by_key(|c| c.poem.clone());

        let mut b = y.0.clone();
        b.sort_by_key(|c| c.poem.clone());

        a == b
    }

    let clues = Clues::mock();
    let mut rng = thread_rng();
    let mut generator = Arrangements::new(clues.clone(), &mut rng)
        .unwrap()
        .iterator();
    // well past the four constructed arrangements, into the endless
    // random tail; every pull still holds the whole catalog
    for _ in 0..10 {
        let arrangement = generator.next(&mut rng);
        assert!(are_same_clues(&arrangement, &clues));
        assert_eq!(arrangement.0.len(), clues.0.len());
    }
}

#[test]
fn test_arrangements_rejects_dominated_catalog() {
    // Two clues at a single location can never avoid repeating it.
    let clues = Clues(vec![Clue::mock(0, "A"), Clue::mock(1, "A")]);
    let mut rng = thread_rng();
    assert!(Arrangements::new(clues, &mut rng).is_err());
}
