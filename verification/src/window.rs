//! Windows and application-level plain data.
use vstd::prelude::*;
use core::marker::PhantomData;

verus! {

/// Identifier of a window.
#[derive(Debug, Clone, Copy, PartialEq, Eq, Hash, Structural)]
pub struct WindowId {
    pub raw: u64,
}

/// How a window is to be opened.
#[derive(Debug, Clone)]
pub struct WindowDesc {
    pub title: String,
    pub width: u32,
    pub height: u32,
    pub resizable: bool,
    pub transparent: bool,
}

impl WindowDesc {
    /// A resizable, opaque 1024 by 768 window with the given title.
    pub fn new(title: &str) -> (r: Self)
        ensures
            r.title@ == title@,
            r.width == 1024,
            r.height == 768,
            r.resizable,
            !r.transparent,
    {
        WindowDesc { title: title.to_string(), width: 1024, height: 768, resizable: true, transparent: false }
    }

    /// The same window with the given inner size.
    pub fn size(self, width: u32, height: u32) -> (r: Self)
        ensures
            r.title == self.title,
            r.width == width,
            r.height == height,
            r.resizable == self.resizable,
            r.transparent == self.transparent,
    {
        WindowDesc { width, height, ..self }
    }

    /// The same window, resizable or not.
    pub fn resizable(self, resizable: bool) -> (r: Self)
        ensures
            r.title == self.title,
            r.width == self.width,
            r.height == self.height,
            r.resizable == resizable,
            r.transparent == self.transparent,
    {
        WindowDesc { resizable, ..self }
    }

    /// The same window, transparent or not.
    pub fn transparent(self, transparent: bool) -> (r: Self)
        ensures
            r.title == self.title,
            r.width == self.width,
            r.height == self.height,
            r.resizable == self.resizable,
            r.transparent == transparent,
    {
        WindowDesc { transparent, ..self }
    }
}

impl Default for WindowDesc {
    /// A window titled `ui0`.
    fn default() -> (r: Self)
        ensures
            r.title@ == "ui0"@,
            r.width == 1024,
            r.height == 768,
            r.resizable,
            !r.transparent,
    {
        WindowDesc::new("ui0")
    }
}

/// What happened to the application or one of its windows.
#[derive(Debug, Clone, Copy, PartialEq, Eq, Structural)]
pub enum AppEvent {
    Resumed,
    Suspended,
    WindowRedrawRequested(WindowId),
    WindowResized { window: WindowId, width: u32, height: u32 },
    WindowCloseRequested(WindowId),
    WindowClosed(WindowId),
}

/// How many threads run background work; `None` leaves it to the runtime.
#[derive(Debug, Clone)]
pub struct TaskOptions {
    pub worker_threads: Option<usize>,
}

/// Options of the application runtime.
#[derive(Debug, Clone)]
pub struct AppOptions {
    pub task: TaskOptions,
}

impl Default for TaskOptions {
    fn default() -> (r: Self)
        ensures
            r.worker_threads is None,
    {
        TaskOptions { worker_threads: None }
    }
}

impl Default for AppOptions {
    fn default() -> (r: Self)
        ensures
            r.task.worker_threads is None,
    {
        AppOptions { task: TaskOptions::default() }
    }
}

/// The context an event handler runs in: the window it happens in.
pub struct EventCx<'a> {
    pub window: WindowId,
    pub _marker: PhantomData<&'a mut ()>,
}

impl<'a> EventCx<'a> {
    /// A context for an event in `window`.
    pub fn new(window: WindowId) -> (r: Self)
        ensures
            r.window == window,
    {
        EventCx { window, _marker: PhantomData }
    }

    /// The window the event happens in.
    pub fn id(&self) -> (r: WindowId)
        ensures
            r == self.window,
    {
        self.window
    }
}

} // verus!
