use kagami::archive::Item;
use kagami::coord::{CoordState, DecodeOutcome};
use std::sync::Arc;

fn images(n: usize) -> Vec<Item> {
    (0..n).map(|i| Item::File(format!("/d/{i}.jpg"))).collect()
}

#[test]
fn the_current_image_comes_first() {
    let items = images(100);
    let mut state = CoordState::new();
    let plan = state.step(&items, 50);
    assert_eq!(plan.priority, Some(50));
    assert!(plan.decodes.is_empty() && plan.hydrates.is_empty());
    assert_eq!(plan.wait_ms, 2);
    // Nothing more is started while it runs.
    let plan = state.step(&items, 50);
    assert_eq!(plan.priority, None);
    assert!(plan.decodes.is_empty() && plan.hydrates.is_empty());
}

#[test]
fn look_ahead_starts_once_the_current_image_shows() {
    let items = images(100);
    let mut state = CoordState::new();
    state.step(&items, 50);
    state.apply_decode(50, DecodeOutcome::Decoded, "/d/50.jpg");
    let plan = state.step(&items, 50);
    assert_eq!(plan.priority, None);
    assert_eq!(plan.decodes, vec![51, 49, 52, 48, 53]);
    assert_eq!(plan.hydrates, vec![47, 54, 46, 55, 45, 56, 44, 57]);
    assert_eq!(plan.wait_ms, 20);
    // The workers are busy now.
    let plan = state.step(&items, 50);
    assert!(plan.decodes.is_empty() && plan.hydrates.is_empty());
    state.apply_hydrate("/d/47.jpg", true);
    state.apply_hydrate("/d//54.jpg", false);
    let plan = state.step(&items, 50);
    assert_eq!(plan.hydrates, vec![54, 43]);
}

#[test]
fn failures_use_up_the_retry_budget_and_aborts_do_not() {
    let items = images(3);
    let mut state = CoordState::new();
    for outcome in [DecodeOutcome::Failed, DecodeOutcome::Aborted, DecodeOutcome::Failed,
        DecodeOutcome::Failed] {
        assert_eq!(state.step(&items, 1).priority, Some(1));
        state.apply_decode(1, outcome, "/d/1.jpg");
    }
    assert_eq!(state.step(&items, 1).priority, None);
}

#[test]
fn failures_are_forgotten_far_from_the_view() {
    let items = images(100);
    let mut state = CoordState::new();
    for _ in 0..3 {
        state.step(&items, 10);
        state.apply_decode(10, DecodeOutcome::Failed, "/d/10.jpg");
    }
    assert_eq!(state.step(&items, 10).priority, None);
    assert_eq!(state.step(&items, 60).priority, Some(60));
    assert_eq!(state.step(&items, 10).priority, Some(10));
}

#[test]
fn videos_and_placeholders_are_never_prepared() {
    let mut items = images(6);
    items[0] = Item::File("/d/0.mp4".to_string());
    items[1] = Item::Container { path: Arc::new("/d/1.zip".to_string()) };
    items[5] = Item::File("/d/5.mov".to_string());
    let mut state = CoordState::new();
    let plan = state.step(&items, 0);
    assert_eq!(plan.priority, None, "a video is ready at once");
    assert_eq!(plan.decodes, vec![2, 4, 3]);
    assert!(plan.hydrates.is_empty());
    let mut other = CoordState::new();
    assert_eq!(other.step(&items, 1).priority, None, "so is a placeholder");
}

#[test]
fn an_archive_is_downloaded_once() {
    let archive = Arc::new("/d/a.cbz".to_string());
    let mut items: Vec<Item> = (0..20)
        .map(|i| Item::Archived { archive: archive.clone(), entry: format!("{i}.jpg") })
        .collect();
    items.push(Item::File("/d/z.mp4".to_string()));
    let mut state = CoordState::new();
    let plan = state.step(&items, 20);
    assert_eq!(plan.decodes, vec![0, 19, 1, 18, 2]);
    assert_eq!(plan.hydrates, vec![17]);
    state.apply_decode(0, DecodeOutcome::Decoded, "/d/a.cbz");
    state.apply_hydrate("/d/a.cbz", false);
    assert!(state.step(&items, 20).hydrates.is_empty(), "a decoded entry made it local");
}
