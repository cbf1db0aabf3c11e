//! The frame driver: what to do next, given the mode of the run and what
//! the display surface last reported.
//!
//! The driver itself touches no surface. Whoever owns the surface carries
//! out each action and reports back what came of it.

use vstd::prelude::*;

verus! {

/// How a run treats its frames.
#[derive(Clone, Copy, Debug, PartialEq, Eq, Structural)]
pub enum Mode {
    /// A new frame, one angle step further, for as long as the surface is open.
    Animated,
    /// One frame, shown again and again.
    Static,
}

/// What the owner of the surface reports to the driver.
#[derive(Clone, Copy, Debug, PartialEq, Eq, Structural)]
pub enum Event {
    /// The surface was created; nothing has been drawn yet.
    Started,
    /// The surface was polled and is open.
    SurfaceOpen,
    /// The surface was polled and is closed.
    SurfaceClosed,
    /// The surface took the buffer.
    Presented,
    /// The surface refused the buffer.
    PresentFailed,
}

/// What the driver asks for next.
#[derive(Clone, Copy, Debug, PartialEq, Eq, Structural)]
pub enum Action {
    /// Ask the surface whether it is still open.
    Poll,
    /// Start from the rest pose, advance the angle by the step of the mode,
    /// draw the frame and present it.
    Render,
    /// Present the buffer as it is.
    Present,
    /// End the run; the surface is closed.
    Stop,
    /// End the run with a failure.
    Abort,
}

/// The action that follows `event` in a run of the given mode.
///
/// An animated run polls before every frame and stops once the surface is
/// closed. A static run renders once, never polls, and takes either answer
/// to a poll as leave to present again. A failed present aborts both.
pub open spec fn next(mode: Mode, event: Event) -> Action {
    match (mode, event) {
        (_, Event::PresentFailed) => Action::Abort,
        (Mode::Animated, Event::Started) => Action::Poll,
        (Mode::Animated, Event::SurfaceOpen) => Action::Render,
        (Mode::Animated, Event::SurfaceClosed) => Action::Stop,
        (Mode::Animated, Event::Presented) => Action::Poll,
        (Mode::Static, Event::Started) => Action::Render,
        (Mode::Static, _) => Action::Present,
    }
}

/// The angle step of a mode in hundredths of a radian.
pub open spec fn step_centiradians(mode: Mode) -> u32 {
    match mode {
        Mode::Animated => 1,
        Mode::Static => 5,
    }
}

/// Decides what to do after `event`.
pub fn next_action(mode: Mode, event: Event) -> (action: Action)
    ensures
        action == next(mode, event),
{
    match event {
        Event::PresentFailed => Action::Abort,
        Event::Started => match mode {
            Mode::Animated => Action::Poll,
            Mode::Static => Action::Render,
        },
        Event::SurfaceOpen => match mode {
            Mode::Animated => Action::Render,
            Mode::Static => Action::Present,
        },
        Event::SurfaceClosed => match mode {
            Mode::Animated => Action::Stop,
            Mode::Static => Action::Present,
        },
        Event::Presented => match mode {
            Mode::Animated => Action::Poll,
            Mode::Static => Action::Present,
        },
    }
}

/// The angle by which one rendered frame of the mode turns the mesh, in
/// hundredths of a radian.
pub fn angle_step(mode: Mode) -> (step: u32)
    ensures
        step == step_centiradians(mode),
{
    match mode {
        Mode::Animated => 1,
        Mode::Static => 5,
    }
}

/// What a run can and cannot do: only a failed present aborts it, only a
/// closed surface stops it and only when animated, a static run renders
/// its one frame at the start and never polls, and an animated run never
/// presents a frame it has not just rendered.
pub proof fn lemma_driver_rules(mode: Mode, event: Event)
    ensures
        next(mode, event) == Action::Abort <==> event == Event::PresentFailed,
        next(mode, event) == Action::Stop <==> mode == Mode::Animated && event
            == Event::SurfaceClosed,
        mode == Mode::Static ==> (next(mode, event) == Action::Render <==> event == Event::Started),
        mode == Mode::Static ==> next(mode, event) != Action::Poll,
        mode == Mode::Animated ==> next(mode, event) != Action::Present,
{
}

} // verus!
