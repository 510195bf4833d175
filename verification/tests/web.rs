use drafftink_server::assets::{content_type_for, decide_response, route_path, AssetDecision};
use drafftink_server::hub::{hub_step, HubAction, HubEvent, HubState};

#[test]
fn root_maps_to_landing_page() {
    assert_eq!(route_path("/"), "index.html");
    assert_eq!(route_path(""), "index.html");
    assert_eq!(route_path("///"), "index.html");
}

#[test]
fn leading_slashes_are_trimmed() {
    assert_eq!(route_path("/app.js"), "app.js");
    assert_eq!(route_path("///nested/app.js"), "nested/app.js");
    assert_eq!(route_path("no-slash.txt"), "no-slash.txt");
}

#[test]
fn content_types_come_from_the_extension() {
    assert_eq!(content_type_for("/styles.css"), "text/css");
    assert_eq!(content_type_for("/index.html"), "text/html");
    assert_eq!(content_type_for("/"), "text/html");
    assert_eq!(content_type_for("/data.bin.unknown-ext"), "application/octet-stream");
}

#[test]
fn found_asset_is_served_with_its_type() {
    match decide_response("main.js", true, true) {
        AssetDecision::Found { content_type } => {
            assert_eq!(content_type, "text/javascript");
        }
        _ => panic!("expected the asset itself"),
    }
}

#[test]
fn missing_asset_falls_back_to_index() {
    match decide_response("no/such/page", false, true) {
        AssetDecision::IndexFallback => {}
        _ => panic!("expected the landing-page fallback"),
    }
    match decide_response("no/such/page", false, false) {
        AssetDecision::Missing => {}
        _ => panic!("expected a miss"),
    }
}

#[test]
fn connection_walks_its_state_machine() {
    let s0 = HubState::Connecting;
    let (s1, a1) = hub_step(s0, HubEvent::JoinGranted { sid: 7 });
    assert_eq!(s1, HubState::Joined { sid: 7 });
    assert_eq!(a1, HubAction::Quiet);
    let (s2, a2) = hub_step(s1, HubEvent::LoopStarted);
    assert_eq!(s2, HubState::Relaying { sid: 7 });
    assert_eq!(a2, HubAction::Quiet);
    let (s3, a3) = hub_step(s2, HubEvent::FrameReceived);
    assert_eq!(s3, HubState::Relaying { sid: 7 });
    assert_eq!(a3, HubAction::Broadcast { sid: 7 });
    let (s4, a4) = hub_step(s3, HubEvent::PeerClosed);
    assert_eq!(s4, HubState::Closing { sid: 7 });
    assert_eq!(a4, HubAction::LeaveAndClose { sid: 7 });
    // a second close report must not emit a second leave
    let (s5, a5) = hub_step(s4, HubEvent::PeerClosed);
    assert_eq!(s5, HubState::Closing { sid: 7 });
    assert_eq!(a5, HubAction::Quiet);
    let (s6, a6) = hub_step(s5, HubEvent::CleanupDone);
    assert_eq!(s6, HubState::Closed);
    assert_eq!(a6, HubAction::Quiet);
}

#[test]
fn receive_failure_tears_down_once() {
    let (s1, a1) = hub_step(HubState::Joined { sid: 3 }, HubEvent::ReceiveFailed);
    assert_eq!(s1, HubState::Closing { sid: 3 });
    assert_eq!(a1, HubAction::LeaveAndClose { sid: 3 });
    let (s2, a2) = hub_step(HubState::Closed, HubEvent::FrameReceived);
    assert_eq!(s2, HubState::Closed);
    assert_eq!(a2, HubAction::Quiet);
}
