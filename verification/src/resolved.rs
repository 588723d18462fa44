//! A scene whose anchors have become positions: frames on the video clock and
//! samples on the 48 kHz program clock.

use vstd::prelude::*;

use crate::anchor::AnchorRef;
use crate::scene::{
    AnimKind, Canvas, Color, ElementKind, NamedPlacement, Rational, Script, TrackKind,
};
use crate::span::Span;

verus! {

/// Frames `start..end`.
#[derive(Debug, Clone, Copy, PartialEq, Eq, Structural)]
pub struct FrameRange {
    pub start: u32,
    pub end: u32,
}

impl FrameRange {
    pub open spec fn holds(self, frame: u32) -> bool {
        self.start <= frame < self.end
    }

    pub open spec fn length(self) -> u32 {
        if self.start <= self.end {
            (self.end - self.start) as u32
        } else {
            0
        }
    }

    pub fn contains(&self, frame: u32) -> (r: bool)
        ensures
            r == self.holds(frame),
    {
        self.start <= frame && frame < self.end
    }

    pub fn len(&self) -> (r: u32)
        ensures
            r == self.length(),
    {
        if self.start <= self.end {
            self.end - self.start
        } else {
            0
        }
    }
}

/// Program samples `start..end`.
#[derive(Debug, Clone, Copy, PartialEq, Eq, Structural)]
pub struct SampleRange {
    pub start: u64,
    pub end: u64,
}

#[derive(Debug, Clone, Copy, PartialEq, Eq, Structural)]
pub struct ResolvedTiming {
    pub frames: FrameRange,
    pub samples: SampleRange,
}

/// A placement in canvas space. A point counts in units of 1/65536 pixel.
#[derive(Debug, Clone, Copy, PartialEq, Eq, Structural)]
pub enum Spot {
    Named(NamedPlacement),
    Point { x: i64, y: i64 },
}

#[derive(Debug, PartialEq)]
pub struct ResolvedElement {
    pub id: Option<String>,
    pub kind: ElementKind,
    pub timing: ResolvedTiming,
    pub placement: Option<Spot>,
    pub anim: Option<AnimKind>,
    pub children: Vec<ResolvedElement>,
    pub span: Span,
}

#[derive(Debug, PartialEq)]
pub struct ResolvedTrack {
    pub id: String,
    pub kind: TrackKind,
    pub anchor: Option<AnchorRef>,
    pub elements: Vec<ResolvedElement>,
}

#[derive(Debug, PartialEq)]
pub struct ResolvedScene {
    pub canvas: Canvas,
    pub frame_rate: Rational,
    pub clear: Color,
    pub script: Option<Script>,
    pub program: ResolvedTiming,
    pub tracks: Vec<ResolvedTrack>,
}

} // verus!
