use euclider::input::{InputEvent, Key, Scroll};
use euclider::simulation::Simulation;

#[test]
fn builder_collects_the_settings() {
    let simulation = Simulation::builder().environment("scene").threads(4).debug(true).build();
    assert_eq!(simulation.environment, "scene");
    assert_eq!(simulation.threads, 4);
    assert!(simulation.debug);
    assert_eq!(simulation.context.resolution(), 8);
    assert!(!simulation.context.debugging());
}

#[test]
fn builder_settings_may_come_in_any_order() {
    let simulation = Simulation::builder().debug(true).threads(2).environment(7u8).debug(false).build();
    assert_eq!(simulation.environment, 7);
    assert_eq!(simulation.threads, 2);
    assert!(!simulation.debug);
}

#[test]
fn escape_ends_the_simulation() {
    let mut simulation = Simulation::builder().environment(()).threads(1).build();
    let frame = vec![InputEvent::KeyPressed(Key::W), InputEvent::Scrolled(Scroll::Down)];
    assert_eq!(simulation.handle_events(&frame), Ok(()));
    assert!(simulation.context.is_pressed(Key::W));
    assert_eq!(simulation.context.resolution(), 9);
    let frame = vec![InputEvent::KeyPressed(Key::Escape), InputEvent::KeyReleased(Key::Escape)];
    assert_eq!(
        simulation.handle_events(&frame),
        Err(InputEvent::KeyReleased(Key::Escape))
    );
}

#[test]
fn debugging_follows_the_builder() {
    let mut allowed = Simulation::builder().environment(()).threads(1).debug(true).build();
    allowed.handle_events(&vec![InputEvent::KeyPressed(Key::LAlt)]).unwrap();
    assert!(allowed.context.debugging());
    let mut refused = Simulation::builder().environment(()).threads(1).build();
    refused.handle_events(&vec![InputEvent::KeyPressed(Key::LAlt)]).unwrap();
    assert!(!refused.context.debugging());
}

#[test]
fn one_thread_per_core() {
    assert_eq!(euclider::simulation::threads_for(4), 4);
    assert_eq!(euclider::simulation::threads_for(1), 1);
    assert_eq!(euclider::simulation::threads_for(usize::MAX), u32::MAX);
    let threads = euclider::simulation::available_threads();
    assert!(threads >= 1);
    assert_eq!(threads as usize, num_cpus::get().min(u32::MAX as usize));
}
