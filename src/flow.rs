//! Settings of the windowed and the in-browser application frames.
use vstd::prelude::*;

verus! {

/// Signal sent by the application to its frame to control the flow.
#[derive(Debug, Copy, Clone, PartialEq, Eq, PartialOrd, Ord)]
pub enum FlowSignal {
    Exit,
}

/// Settings of the desktop window that hosts the application.
pub struct DesktopFlow {
    /// The window's title.
    pub title: String,
    /// Whether the window should be fullscreen.
    pub fullscreen: bool,
    /// The window's width if not fullscreen.
    pub width: u32,
    /// The window's height if not fullscreen.
    pub height: u32,
}

impl DesktopFlow {
    /// Untitled, windowed, 1280 by 720.
    pub fn new() -> (f: DesktopFlow)
        ensures
            f.title@ == Seq::<char>::empty(),
            !f.fullscreen,
            f.width == 1280,
            f.height == 720,
    {
        DesktopFlow { title: String::new(), fullscreen: false, width: 1280, height: 720 }
    }

    /// Sets the window title.
    pub fn title(self, title: String) -> (f: Self)
        ensures
            f.title@ == title@,
            f.fullscreen == self.fullscreen,
            f.width == self.width,
            f.height == self.height,
    {
        DesktopFlow { title, ..self }
    }

    /// Sets whether the window is fullscreen.
    pub fn fullscreen(self, fullscreen: bool) -> (f: Self)
        ensures
            f.title@ == self.title@,
            f.fullscreen == fullscreen,
            f.width == self.width,
            f.height == self.height,
    {
        DesktopFlow { fullscreen, ..self }
    }

    /// Sets the window width.
    pub fn width(self, width: u32) -> (f: Self)
        ensures
            f.title@ == self.title@,
            f.fullscreen == self.fullscreen,
            f.width == width,
            f.height == self.height,
    {
        DesktopFlow { width, ..self }
    }

    /// Sets the window height.
    pub fn height(self, height: u32) -> (f: Self)
        ensures
            f.title@ == self.title@,
            f.fullscreen == self.fullscreen,
            f.width == self.width,
            f.height == height,
    {
        DesktopFlow { height, ..self }
    }
}

/// What the window system or the application told the desktop frame.
#[derive(Debug, Copy, Clone, PartialEq, Eq)]
pub enum FrameEvent {
    /// The window's inner size changed, or its scale factor did.
    Resized { width: u32, height: u32 },
    /// The user asked to close the window.
    CloseRequested,
    /// The Escape key was pressed.
    EscapePressed,
    /// All pending input has been handled: time to advance the model.
    EventsCleared,
    /// A signal sent by the application.
    Signal(FlowSignal),
    /// The window asked to be drawn.
    RedrawRequested,
    /// The event loop is ending.
    LoopDestroyed,
    /// Anything else, or an event of another window.
    Other,
}

/// What the desktop frame does in answer to an event.
#[derive(Debug, Copy, Clone, PartialEq, Eq)]
pub enum FrameAction {
    /// Reconfigure the surface and let the model resize.
    Resize { width: u32, height: u32 },
    /// Leave the event loop.
    Exit,
    /// Advance the model by the time since the last update, then ask for a redraw.
    Update,
    /// Get the next surface texture and draw into it.
    Render,
    /// Shut the model down and release the GPU objects.
    Shutdown,
    /// Nothing.
    Ignore,
}

/// Outcome of asking the surface for the next texture.
#[derive(Debug, Copy, Clone, PartialEq, Eq)]
pub enum TextureOutcome {
    Ready,
    OutOfMemory,
    /// Lost, outdated or timed out: this frame is skipped.
    Unavailable,
}

/// What to do with a requested frame.
#[derive(Debug, Copy, Clone, PartialEq, Eq)]
pub enum RenderStep {
    /// Render into the texture and present it.
    Draw,
    /// Leave the event loop: the GPU is out of memory.
    Exit,
    /// Skip this frame.
    Skip,
}

/// The desktop frame's answer to each event.
pub fn on_event(event: FrameEvent) -> (action: FrameAction)
    ensures
        action == (match event {
            FrameEvent::Resized { width, height } => FrameAction::Resize { width, height },
            FrameEvent::CloseRequested => FrameAction::Exit,
            FrameEvent::EscapePressed => FrameAction::Exit,
            FrameEvent::EventsCleared => FrameAction::Update,
            FrameEvent::Signal(FlowSignal::Exit) => FrameAction::Exit,
            FrameEvent::RedrawRequested => FrameAction::Render,
            FrameEvent::LoopDestroyed => FrameAction::Shutdown,
            FrameEvent::Other => FrameAction::Ignore,
        }),
{
    match event {
        FrameEvent::Resized { width, height } => FrameAction::Resize { width, height },
        FrameEvent::CloseRequested | FrameEvent::EscapePressed => FrameAction::Exit,
        FrameEvent::EventsCleared => FrameAction::Update,
        FrameEvent::Signal(signal) => match signal {
            FlowSignal::Exit => FrameAction::Exit,
        },
        FrameEvent::RedrawRequested => FrameAction::Render,
        FrameEvent::LoopDestroyed => FrameAction::Shutdown,
        FrameEvent::Other => FrameAction::Ignore,
    }
}

/// Draws when a texture is ready, leaves when the GPU is out of memory, and
/// skips the frame otherwise.
pub fn on_texture(outcome: TextureOutcome) -> (step: RenderStep)
    ensures
        outcome == TextureOutcome::Ready ==> step == RenderStep::Draw,
        outcome == TextureOutcome::OutOfMemory ==> step == RenderStep::Exit,
        outcome == TextureOutcome::Unavailable ==> step == RenderStep::Skip,
{
    match outcome {
        TextureOutcome::Ready => RenderStep::Draw,
        TextureOutcome::OutOfMemory => RenderStep::Exit,
        TextureOutcome::Unavailable => RenderStep::Skip,
    }
}

/// Settings of the page elements that host the application in a browser.
pub struct WebFlowBuilder {
    /// Id of the element that receives the canvas.
    pub canvas_container_id: String,
    /// Id given to the canvas.
    pub canvas_id: String,
}

impl WebFlowBuilder {
    /// Container `canvas-container`, canvas `canvas`.
    pub fn new() -> (b: WebFlowBuilder)
        ensures
            b.canvas_container_id@ == "canvas-container"@,
            b.canvas_id@ == "canvas"@,
    {
        WebFlowBuilder {
            canvas_container_id: "canvas-container".to_string(),
            canvas_id: "canvas".to_string(),
        }
    }

    /// Sets the id of the element that receives the canvas.
    pub fn canvas_container_id(self, id: String) -> (b: Self)
        ensures
            b.canvas_container_id@ == id@,
            b.canvas_id@ == self.canvas_id@,
    {
        WebFlowBuilder { canvas_container_id: id, ..self }
    }

    /// Sets the id given to the canvas.
    pub fn canvas_id(self, id: String) -> (b: Self)
        ensures
            b.canvas_container_id@ == self.canvas_container_id@,
            b.canvas_id@ == id@,
    {
        WebFlowBuilder { canvas_id: id, ..self }
    }
}

} // verus!
