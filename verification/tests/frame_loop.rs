use exey_engine::engine::{Engine, EngineAction, EngineEvent, Phase};
use exey_engine::gfx::frame::AcquireResult;
use exey_engine::{EngineConfig, RendererKind};

const DRAW: EngineEvent = EngineEvent::Draw { width: 800, height: 600 };

#[test]
fn default_configuration() {
    let c = EngineConfig::default();
    assert_eq!(c.app_name, "ExeyEngine");
    assert_eq!(c.renderer, RendererKind::BigBuffer);
}

#[test]
fn an_undisturbed_frame() {
    let mut e = Engine::new();
    assert!(e.verbose());
    assert_eq!(e.step(DRAW), EngineAction::AcquireImage { frame: 0 });
    assert_eq!(
        e.step(EngineEvent::Acquired(AcquireResult::Acquired(7))),
        EngineAction::Record { frame: 0, image_index: 7 }
    );
    assert_eq!(
        e.step(EngineEvent::Recorded),
        EngineAction::Present { frame: 0, image_index: 7 }
    );
    assert_eq!(e.step(EngineEvent::Presented { needs_recreate: false }), EngineAction::Wait);
    assert_eq!(e.frame_index, 1);
    assert_eq!(e.phase, Phase::Idle);
    assert_eq!(e.step(DRAW), EngineAction::AcquireImage { frame: 1 });
}

#[test]
fn a_minimised_window_is_skipped() {
    let mut e = Engine::new();
    let before = e;
    assert_eq!(e.step(EngineEvent::Draw { width: 0, height: 600 }), EngineAction::Wait);
    assert_eq!(e.step(EngineEvent::Draw { width: 800, height: 0 }), EngineAction::Wait);
    assert_eq!(e, before);
}

#[test]
fn a_resize_recreates_at_the_next_frame() {
    let mut e = Engine::new();
    e.on_resize((800, 600));
    assert!(e.needs_recreate);
    // Not while minimised.
    assert_eq!(e.step(EngineEvent::Draw { width: 0, height: 0 }), EngineAction::Wait);
    assert_eq!(e.step(DRAW), EngineAction::RecreateSwapchain { width: 800, height: 600 });
    assert_eq!(e.step(EngineEvent::Recreated), EngineAction::AcquireImage { frame: 0 });
    assert!(!e.needs_recreate);
}

#[test]
fn a_failed_recreation_is_tried_again() {
    let mut e = Engine::new();
    e.on_resize((1, 1));
    e.step(DRAW);
    assert_eq!(e.step(EngineEvent::Failed), EngineAction::Wait);
    assert_eq!(e.step(DRAW), EngineAction::RecreateSwapchain { width: 800, height: 600 });
}

#[test]
fn a_stale_image_ends_the_frame() {
    let mut e = Engine::new();
    e.step(DRAW);
    assert_eq!(e.step(EngineEvent::Acquired(AcquireResult::Recreate)), EngineAction::Wait);
    assert_eq!(e.frame_index, 0);
    assert_eq!(e.step(DRAW), EngineAction::RecreateSwapchain { width: 800, height: 600 });
}

#[test]
fn a_stale_present_counts_but_recreates() {
    let mut e = Engine::new();
    e.step(DRAW);
    e.step(EngineEvent::Acquired(AcquireResult::Acquired(0)));
    e.step(EngineEvent::Recorded);
    e.step(EngineEvent::Presented { needs_recreate: true });
    assert_eq!(e.frame_index, 1);
    assert_eq!(e.step(DRAW), EngineAction::RecreateSwapchain { width: 800, height: 600 });
}

#[test]
fn only_the_first_frames_are_verbose() {
    let mut e = Engine::new();
    let mut verbose = Vec::new();
    for _ in 0..5 {
        verbose.push(e.verbose());
        e.step(DRAW);
        e.step(EngineEvent::Acquired(AcquireResult::Acquired(0)));
        e.step(EngineEvent::Recorded);
        e.step(EngineEvent::Presented { needs_recreate: false });
    }
    assert_eq!(verbose, vec![true, true, true, false, false]);
}
