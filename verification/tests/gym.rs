use tpt_physics::EpisodeCounter;

#[test]
fn episode_terminates_after_budget() {
    let mut e = EpisodeCounter::new(10);
    e.reset();
    let mut steps = 0;
    loop {
        let done = e.advance();
        steps += 1;
        if done {
            break;
        }
    }
    assert_eq!(steps, 10);
    assert_eq!(e.steps(), 10);
    e.reset();
    assert_eq!(e.steps(), 0);
    assert_eq!(e.max_steps(), 10);
}

#[test]
fn zero_budget_terminates_on_first_step() {
    let mut e = EpisodeCounter::new(0);
    assert!(e.advance());
    e.set_max_steps(3);
    assert!(!e.advance());
    assert!(e.advance());
}
