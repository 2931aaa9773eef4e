use pathtracer::integrator::{next_action, Action, Event, FIRST_DEPTH, MAX_DEPTH};

#[test]
fn miss_shows_the_sky() {
    assert_eq!(next_action(FIRST_DEPTH, Event::Miss), Action::Sky);
    assert_eq!(next_action(MAX_DEPTH, Event::Miss), Action::Sky);
}

#[test]
fn hit_below_cap_asks_the_material() {
    assert_eq!(next_action(FIRST_DEPTH, Event::Hit), Action::AskMaterial);
    assert_eq!(next_action(19, Event::Hit), Action::AskMaterial);
}

#[test]
fn hit_at_cap_is_black() {
    assert_eq!(MAX_DEPTH, 20);
    assert_eq!(next_action(20, Event::Hit), Action::Black);
}

#[test]
fn absorbed_is_black() {
    assert_eq!(next_action(5, Event::Absorbed), Action::Black);
}

#[test]
fn scattered_goes_one_deeper() {
    assert_eq!(next_action(1, Event::Scattered), Action::Trace(2));
    assert_eq!(next_action(19, Event::Scattered), Action::Trace(20));
}

#[test]
fn a_path_that_always_scatters_stops_at_the_cap() {
    let mut depth = FIRST_DEPTH;
    let mut bounces = 0;
    loop {
        match next_action(depth, Event::Hit) {
            Action::AskMaterial => match next_action(depth, Event::Scattered) {
                Action::Trace(d) => {
                    depth = d;
                    bounces += 1;
                }
                other => panic!("unexpected {:?}", other),
            },
            Action::Black => break,
            other => panic!("unexpected {:?}", other),
        }
    }
    assert_eq!(bounces, 19);
    assert_eq!(depth, MAX_DEPTH);
}
