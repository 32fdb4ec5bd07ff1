use particles2d::gui::{GlobalText, Gui, GuiError, MiniText};

fn ids(v: &[u64]) -> Vec<u64> {
    v.to_vec()
}

#[test]
fn global_text_duplicate_field_keeps_first_value() {
    let mut gt = GlobalText::default();
    assert_eq!(gt.create_field("x", "1"), Ok(()));
    assert_eq!(gt.create_field("x", "2"), Err(GuiError::DuplicateField));
    assert_eq!(gt.fields.len(), 1);
    assert_eq!(gt.fields[0].0, "x");
    assert_eq!(gt.fields[0].1, "1");
}

#[test]
fn global_text_update_field() {
    let mut gt = GlobalText::default();
    assert_eq!(gt.create_field("fps", "60"), Ok(()));
    assert_eq!(gt.create_field("count", "3"), Ok(()));
    assert_eq!(gt.update_field("count", "4"), Ok(()));
    assert_eq!(gt.fields[1].1, "4");
    assert_eq!(gt.fields[0].1, "60");
    assert_eq!(gt.update_field("missing", "9"), Err(GuiError::UnknownField));
    assert_eq!(gt.fields.len(), 2);
}

#[test]
fn global_text_new_starts_empty_values() {
    let names = vec![String::from("a"), String::from("b")];
    let gt = GlobalText::new(&names);
    assert_eq!(gt.fields.len(), 2);
    assert_eq!(gt.fields[0], (String::from("a"), String::new()));
    assert_eq!(gt.fields[1], (String::from("b"), String::new()));
    let lines = gt.render_lines();
    assert_eq!(lines, vec![String::from("a: "), String::from("b: ")]);
}

#[test]
fn minitext_try_new_caches_index() {
    let particles = ids(&[1, 2]);
    let mt = MiniText::try_new(&["vel"], 2, &particles).unwrap();
    assert_eq!(mt.tracked_uid, 2);
    assert_eq!(mt.tracked_index, 1);
    assert!(!mt.disabled);
    assert_eq!(mt.fields, vec![(String::from("vel"), String::new())]);
    assert!(MiniText::try_new(&["vel"], 7, &particles).is_none());
}

#[test]
fn minitext_update_field_and_lines() {
    let particles = ids(&[4]);
    let mut mt = MiniText::try_new(&["vel", "acc"], 4, &particles).unwrap();
    assert_eq!(mt.update_field("vel", "3.5"), Ok(()));
    assert_eq!(mt.update_field("nope", "0"), Err(GuiError::UnknownField));
    let lines = mt.render_lines();
    assert_eq!(lines, vec![String::from("vel: 3.5"), String::from("acc: ")]);
}

#[test]
fn minitext_resolve_fast_path() {
    let particles = ids(&[5]);
    let mut mt = MiniText::try_new(&[], 5, &particles).unwrap();
    assert_eq!(mt.resolve(&particles), Some(0));
    assert_eq!(mt.tracked_index, 0);
    assert!(!mt.disabled);
}

#[test]
fn minitext_resolve_checks_identity_at_cached_index() {
    // The cached index is in bounds but holds another particle: the tracked
    // identity must be found by search, not drawn at the stale slot.
    let mut mt = MiniText {
        fields: Vec::new(),
        tracked_uid: 2,
        tracked_index: 0,
        disabled: false,
    };
    let particles = ids(&[1, 2]);
    assert_eq!(mt.resolve(&particles), Some(1));
    assert_eq!(mt.tracked_index, 1);
}

#[test]
fn minitext_lifecycle_disable_and_purge() {
    let particles = ids(&[1, 2]);
    let mut gui = Gui::new(GlobalText::default());
    assert_eq!(gui.create_minitext(&["hp"], 2, &particles), Ok(()));
    assert_eq!(gui.mini_text[0].tracked_index, 1);
    // Particle 2 disappears; the draw pass reports no placement for it and
    // purges its mini-text.
    let remaining = ids(&[1]);
    let placements = gui.draw_pass(&remaining);
    assert!(placements.is_empty());
    assert!(gui.get_minitext(2).is_none());
    assert!(gui.mini_text.is_empty());
}

#[test]
fn minitext_cache_self_heals_after_reorder() {
    let particles = ids(&[1, 2]);
    let mut gui = Gui::new(GlobalText::default());
    assert_eq!(gui.create_minitext(&[], 2, &particles), Ok(()));
    assert_eq!(gui.mini_text[0].tracked_index, 1);
    // The sequence is reordered; one draw pass finds the particle at its new
    // index and refreshes the cache.
    let swapped = ids(&[2, 1]);
    let placements = gui.draw_pass(&swapped);
    assert_eq!(placements, vec![(2, 0)]);
    assert_eq!(gui.get_minitext(2).unwrap().tracked_index, 0);
}

#[test]
fn draw_pass_purges_several_and_is_idempotent() {
    let particles = ids(&[1, 2, 3]);
    let mut gui = Gui::new(GlobalText::default());
    assert_eq!(gui.create_minitext(&[], 1, &particles), Ok(()));
    assert_eq!(gui.create_minitext(&[], 2, &particles), Ok(()));
    assert_eq!(gui.create_minitext(&[], 3, &particles), Ok(()));
    let remaining = ids(&[2]);
    let placements = gui.draw_pass(&remaining);
    assert_eq!(placements, vec![(2, 0)]);
    assert_eq!(gui.mini_text.len(), 1);
    assert_eq!(gui.mini_text[0].tracked_uid, 2);
    // A second pass over the same particles changes nothing.
    let placements2 = gui.draw_pass(&remaining);
    assert_eq!(placements2, vec![(2, 0)]);
    assert_eq!(gui.mini_text.len(), 1);
    assert_eq!(gui.mini_text[0].tracked_index, 0);
}

#[test]
fn create_minitext_rejects_duplicate_and_missing() {
    let particles = ids(&[1, 2]);
    let mut gui = Gui::new(GlobalText::default());
    assert_eq!(gui.create_minitext(&[], 2, &particles), Ok(()));
    assert_eq!(
        gui.create_minitext(&[], 2, &particles),
        Err(GuiError::DuplicateTracking)
    );
    assert_eq!(
        gui.create_minitext(&[], 9, &particles),
        Err(GuiError::ParticleNotFound)
    );
    assert_eq!(gui.mini_text.len(), 1);
}

#[test]
fn remove_minitext_by_identity() {
    let particles = ids(&[1, 2]);
    let mut gui = Gui::new(GlobalText::default());
    assert_eq!(gui.create_minitext(&[], 1, &particles), Ok(()));
    assert_eq!(gui.create_minitext(&[], 2, &particles), Ok(()));
    assert!(gui.remove_minitext(1));
    assert_eq!(gui.mini_text.len(), 1);
    assert_eq!(gui.mini_text[0].tracked_uid, 2);
    assert!(!gui.remove_minitext(1));
    assert_eq!(gui.mini_text.len(), 1);
}

#[test]
fn get_minitext_mut_updates_fields() {
    let particles = ids(&[3]);
    let mut gui = Gui::new(GlobalText::default());
    assert_eq!(gui.create_minitext(&["hp"], 3, &particles), Ok(()));
    {
        let mt = gui.get_minitext_mut(3).unwrap();
        assert_eq!(mt.update_field("hp", "12"), Ok(()));
    }
    assert!(gui.get_minitext_mut(9).is_none());
    let lines = gui.get_minitext(3).unwrap().render_lines();
    assert_eq!(lines, vec![String::from("hp: 12")]);
}

#[test]
fn pause_and_single_step_gating() {
    let mut gui = Gui::new(GlobalText::default());
    // Running: the update runs every frame and no request is consumed.
    assert!(gui.should_run_update());
    assert!(gui.should_run_update());
    // Requests while running are a no-op.
    gui.request_next_frame();
    assert!(!gui.expect_frame);
    gui.switch_pause();
    assert!(gui.paused);
    // Paused with no pending request: no update.
    assert!(!gui.should_run_update());
    // One request lets exactly one update through.
    gui.request_next_frame();
    assert!(gui.should_run_update());
    assert!(!gui.should_run_update());
    // Unpausing resumes updates.
    gui.switch_pause();
    assert!(gui.should_run_update());
}
