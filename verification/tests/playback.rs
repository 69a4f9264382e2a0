use tetris_progressbar::pendings::Pendings;
use tetris_progressbar::playback::{Animation, Event};
use tetris_progressbar::render::{render, Pixel};

#[test]
fn a_new_animation_starts_at_step_zero_with_help() {
    let animation = Animation::new(42, 3, 4);
    assert_eq!(animation.step(), 0);
    assert!(animation.show_help());
    assert_eq!(animation.width(), 3);
    assert_eq!(animation.height(), 4);
    assert_eq!(
        animation.pendings().orders(),
        &vec![vec![2, 0, 1, 3], vec![3, 0, 2, 1], vec![1, 0, 2, 3]]
    );
}

#[test]
fn max_step_is_cells_plus_columns_minus_one() {
    assert_eq!(Animation::new(1, 58, 30).max_step(), 1797);
    assert_eq!(Animation::new(1, 2, 2).max_step(), 5);
    assert_eq!(Animation::new(1, 1, 0).max_step(), 0);
    assert_eq!(Animation::new(1, 7, 0).max_step(), 6);
    assert_eq!(Animation::new(1, 1, 1).max_step(), 1);
}

#[test]
fn stepping_back_stops_at_zero() {
    let mut animation = Animation::new(1, 4, 4);
    animation.handle(Event::StepBackward);
    assert_eq!(animation.step(), 0);
    animation.handle(Event::StepForward);
    animation.handle(Event::StepForward);
    assert_eq!(animation.step(), 2);
    animation.handle(Event::StepBackward);
    assert_eq!(animation.step(), 1);
    animation.handle(Event::StepBackward);
    animation.handle(Event::StepBackward);
    assert_eq!(animation.step(), 0);
}

#[test]
fn stepping_forward_stops_at_the_last_step() {
    let mut animation = Animation::new(1, 2, 2);
    for expected in 1..=5 {
        animation.handle(Event::StepForward);
        assert_eq!(animation.step(), expected);
    }
    for _ in 0..10 {
        animation.handle(Event::StepForward);
        assert_eq!(animation.step(), 5);
    }
}

#[test]
fn toggling_help_flips_the_flag_only() {
    let mut animation = Animation::new(1, 2, 2);
    animation.handle(Event::StepForward);
    let orders = animation.pendings().orders().clone();
    animation.handle(Event::ToggleHelp);
    assert!(!animation.show_help());
    animation.handle(Event::ToggleHelp);
    assert!(animation.show_help());
    assert_eq!(animation.step(), 1);
    assert_eq!(animation.pendings().orders(), &orders);
}

#[test]
fn randomize_replaces_the_orders_and_keeps_the_step() {
    let mut animation = Animation::new(1, 6, 5);
    for _ in 0..9 {
        animation.handle(Event::StepForward);
    }
    animation.handle(Event::ToggleHelp);
    animation.handle(Event::Randomize(2024));
    assert_eq!(animation.step(), 9);
    assert!(!animation.show_help());
    assert_eq!(animation.width(), 6);
    assert_eq!(animation.height(), 5);
    assert_eq!(animation.max_step(), 35);
    assert_eq!(animation.pendings().orders(), Pendings::new(2024, 6, 5).orders());
}

#[test]
fn randomize_at_step_zero_leaves_all_lit() {
    let mut animation = Animation::new(1, 10, 6);
    for seed in [0u64, 1, 2, 99, u64::MAX] {
        animation.handle(Event::Randomize(seed));
        assert_eq!(animation.frame(), vec![vec![Pixel::Lit; 6]; 10]);
    }
}

#[test]
fn frame_is_the_rendering_of_the_current_step() {
    let mut animation = Animation::new(5, 7, 3);
    for step in 0..=animation.max_step() {
        assert_eq!(animation.step(), step);
        assert_eq!(Ok(animation.frame()), render(step, 7, 3, animation.pendings().orders()));
        animation.handle(Event::StepForward);
    }
    assert_eq!(animation.frame(), vec![vec![Pixel::Dark; 3]; 7]);
}
