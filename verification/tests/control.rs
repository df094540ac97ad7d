use rmenu::control::{claim_step, display_token, socket_path_from, BindResult, ClaimAction, ClaimEvent};

#[test]
fn no_runtime_dir_disables_the_slot_and_odd_displays_stay_filename_safe() {
    assert!(socket_path_from(None, "wayland-1").is_none());
    assert!(socket_path_from(Some(String::new()), "wayland-1").is_none());
    assert_eq!(
        socket_path_from(Some("/run/user/1000".to_string()), "/abs/wayland-1"),
        Some("/run/user/1000/rmenu-wayland-1.sock".to_string())
    );
    let unnamed = socket_path_from(Some("/tmp".to_string()), "").unwrap();
    assert!(unnamed.ends_with("rmenu-default.sock"));
}

#[test]
fn display_tokens_are_filename_safe() {
    assert_eq!(display_token("wayland-1"), "wayland-1");
    assert_eq!(display_token("/run/user/1000/wayland-0"), "wayland-0");
    assert_eq!(display_token("weird name:2"), "weird_name_2");
    assert_eq!(display_token("trailing/"), "default");
    assert_eq!(display_token("ünï.x"), "_n_.x");
}

#[test]
fn claim_dismisses_a_live_instance_or_takes_the_slot() {
    assert_eq!(claim_step(ClaimEvent::Start), ClaimAction::Probe);
    assert_eq!(claim_step(ClaimEvent::Probed(true)), ClaimAction::Dismissed);
    assert_eq!(claim_step(ClaimEvent::Probed(false)), ClaimAction::Bind, "a stale socket is reclaimed");
    assert_eq!(claim_step(ClaimEvent::Bind(BindResult::Bound)), ClaimAction::Own);
    assert_eq!(claim_step(ClaimEvent::Bind(BindResult::InUse)), ClaimAction::Reprobe);
    assert_eq!(claim_step(ClaimEvent::Reprobed(true)), ClaimAction::Dismissed);
    assert_eq!(claim_step(ClaimEvent::Reprobed(false)), ClaimAction::Disabled);
    assert_eq!(claim_step(ClaimEvent::Bind(BindResult::Failed)), ClaimAction::Disabled);
}
