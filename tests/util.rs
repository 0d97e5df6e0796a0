use neonet2::flow::{
    on_event, on_texture, DesktopFlow, FlowSignal, FrameAction, FrameEvent, RenderStep,
    TextureOutcome, WebFlowBuilder,
};
use neonet2::util::least_power_of_2_greater;

#[test]
fn power_of_two_values() {
    assert_eq!(least_power_of_2_greater(0), 0);
    assert_eq!(least_power_of_2_greater(1), 1);
    assert_eq!(least_power_of_2_greater(2), 2);
    assert_eq!(least_power_of_2_greater(3), 4);
    assert_eq!(least_power_of_2_greater(5), 8);
    assert_eq!(least_power_of_2_greater(1000), 1024);
    assert_eq!(least_power_of_2_greater(1024), 1024);
    assert_eq!(least_power_of_2_greater(1025), 2048);
    assert_eq!(least_power_of_2_greater(1 << 63), 1 << 63);
    assert_eq!(least_power_of_2_greater((1 << 62) + 1), 1 << 63);
}

#[test]
fn desktop_flow_defaults_and_setters() {
    let f = DesktopFlow::new();
    assert_eq!(f.title, "");
    assert!(!f.fullscreen);
    assert_eq!(f.width, 1280);
    assert_eq!(f.height, 720);
    let f = f.title("NeoNet 2".to_string()).width(1920).height(1080).fullscreen(true);
    assert_eq!(f.title, "NeoNet 2");
    assert!(f.fullscreen);
    assert_eq!(f.width, 1920);
    assert_eq!(f.height, 1080);
}

#[test]
fn web_flow_builder_defaults_and_setters() {
    let b = WebFlowBuilder::new();
    assert_eq!(b.canvas_container_id, "canvas-container");
    assert_eq!(b.canvas_id, "canvas");
    let b = b.canvas_container_id("box".to_string()).canvas_id("view".to_string());
    assert_eq!(b.canvas_container_id, "box");
    assert_eq!(b.canvas_id, "view");
}

#[test]
fn flow_signal_compares() {
    assert_eq!(FlowSignal::Exit, FlowSignal::Exit);
    assert_eq!(format!("{:?}", FlowSignal::Exit), "Exit");
}

#[test]
fn frame_events_map_to_actions() {
    assert_eq!(
        on_event(FrameEvent::Resized { width: 800, height: 600 }),
        FrameAction::Resize { width: 800, height: 600 }
    );
    assert_eq!(on_event(FrameEvent::CloseRequested), FrameAction::Exit);
    assert_eq!(on_event(FrameEvent::EscapePressed), FrameAction::Exit);
    assert_eq!(on_event(FrameEvent::Signal(FlowSignal::Exit)), FrameAction::Exit);
    assert_eq!(on_event(FrameEvent::EventsCleared), FrameAction::Update);
    assert_eq!(on_event(FrameEvent::RedrawRequested), FrameAction::Render);
    assert_eq!(on_event(FrameEvent::LoopDestroyed), FrameAction::Shutdown);
    assert_eq!(on_event(FrameEvent::Other), FrameAction::Ignore);
}

#[test]
fn texture_outcomes_map_to_steps() {
    assert_eq!(on_texture(TextureOutcome::Ready), RenderStep::Draw);
    assert_eq!(on_texture(TextureOutcome::OutOfMemory), RenderStep::Exit);
    assert_eq!(on_texture(TextureOutcome::Unavailable), RenderStep::Skip);
}
