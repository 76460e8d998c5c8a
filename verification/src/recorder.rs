//! Phase-portrait recording: the state machine that decides when frames are
//! captured and when the captured frames are assembled into a GIF.
//!
//! The recorder does no I/O itself.  Each operation returns a
//! [`RecorderAction`] naming the work the caller performs next (create the
//! frames directory, write one PNG frame, encode the GIF); the caller reports
//! back with [`PhasePortraitRecorder::begin`],
//! [`PhasePortraitRecorder::frame_written`] and
//! [`PhasePortraitRecorder::encoding_done`], and feeds the clock with
//! [`PhasePortraitRecorder::tick`].
use vstd::prelude::*;
use vstd::string::*;
use crate::text::{decimal, push_decimal, push_zero_padded, zero_padded};

verus! {

/// Whether the recorder is currently active.
#[derive(Debug, Clone, Copy, PartialEq, Eq, Structural)]
pub enum RecordingState {
    /// Not recording.
    Idle,
    /// Actively capturing frames.
    Recording,
    /// Finished capturing; encoding in progress.
    Encoding,
}

/// Errors that can occur during recording or GIF encoding.
#[derive(Debug, Clone)]
pub enum RecorderError {
    /// An IO operation failed; holds the system's message.
    Io(String),
    /// The image encoder reported an error; holds its message.
    Image(String),
    /// The frames directory was not set when encoding was attempted.
    NoFramesDir,
    /// Width or height was zero.
    InvalidDimensions,
}

impl RecorderError {
    pub open spec fn message_spec(&self) -> Seq<char> {
        match self {
            RecorderError::Io(e) => "IO error: "@ + e@,
            RecorderError::Image(e) => "image error: "@ + e@,
            RecorderError::NoFramesDir => "no frames directory available"@,
            RecorderError::InvalidDimensions => "invalid frame dimensions (0)"@,
        }
    }

    /// A human-readable description of the error.
    pub fn message(&self) -> (m: String)
        ensures
            m@ == self.message_spec(),
    {
        match self {
            RecorderError::Io(e) => {
                let mut m = String::from_str("IO error: ");
                m.append(e.as_str());
                m
            },
            RecorderError::Image(e) => {
                let mut m = String::from_str("image error: ");
                m.append(e.as_str());
                m
            },
            RecorderError::NoFramesDir => String::from_str("no frames directory available"),
            RecorderError::InvalidDimensions => String::from_str("invalid frame dimensions (0)"),
        }
    }
}

/// The work the caller performs next.
#[derive(Debug, Clone)]
pub enum RecorderAction {
    /// Nothing to do.
    Nothing,
    /// Create a fresh frames directory, then call `begin` with its path.
    CreateFramesDir,
    /// Write the current frame as PNG file `file_name` in `dir`, then call `frame_written`.
    WriteFrame { dir: String, file_name: String },
    /// Encode the PNG frames of `frames_dir` into the GIF `output` at `fps`,
    /// remove the directory, then call `encoding_done`.
    Encode { frames_dir: String, output: String, fps: u32 },
}

/// A [`RecorderAction`] with its strings as character sequences.
pub enum ActionView {
    Nothing,
    CreateFramesDir,
    WriteFrame { dir: Seq<char>, file_name: Seq<char> },
    Encode { frames_dir: Seq<char>, output: Seq<char>, fps: u32 },
}

impl View for RecorderAction {
    type V = ActionView;

    open spec fn view(&self) -> ActionView {
        match self {
            RecorderAction::Nothing => ActionView::Nothing,
            RecorderAction::CreateFramesDir => ActionView::CreateFramesDir,
            RecorderAction::WriteFrame { dir, file_name } => ActionView::WriteFrame {
                dir: dir@,
                file_name: file_name@,
            },
            RecorderAction::Encode { frames_dir, output, fps } => ActionView::Encode {
                frames_dir: frames_dir@,
                output: output@,
                fps: *fps,
            },
        }
    }
}

/// Captures frames of the geodesic animation and assembles them into a GIF.
pub struct PhasePortraitRecorder {
    state: RecordingState,
    width: u32,
    height: u32,
    fps: u32,
    max_secs: u32,
    /// Clock reading (milliseconds) when recording started.
    start_ms: Option<u64>,
    /// Latest clock reading (milliseconds).
    now_ms: u64,
    frames_dir: Option<String>,
    frame_count: usize,
    output_path: String,
}

/// The recorder's state, with its strings as character sequences.
pub struct RecorderView {
    pub state: RecordingState,
    pub width: u32,
    pub height: u32,
    pub fps: u32,
    pub max_secs: u32,
    pub start_ms: Option<u64>,
    pub now_ms: u64,
    pub frames_dir: Option<Seq<char>>,
    pub frame_count: usize,
    pub output: Seq<char>,
}

impl View for PhasePortraitRecorder {
    type V = RecorderView;

    closed spec fn view(&self) -> RecorderView {
        RecorderView {
            state: self.state,
            width: self.width,
            height: self.height,
            fps: self.fps,
            max_secs: self.max_secs,
            start_ms: self.start_ms,
            now_ms: self.now_ms,
            frames_dir: match self.frames_dir {
                Some(d) => Some(d@),
                None => None,
            },
            frame_count: self.frame_count,
            output: self.output_path@,
        }
    }
}

/// Milliseconds since recording started (zero before the start).
pub open spec fn elapsed_ms(v: RecorderView) -> nat {
    match v.start_ms {
        Some(s) => if v.now_ms >= s {
            (v.now_ms - s) as nat
        } else {
            0
        },
        None => 0,
    }
}

/// The recording has run for its whole duration.
pub open spec fn timed_out(v: RecorderView) -> bool {
    v.start_ms is Some && elapsed_ms(v) >= v.max_secs * 1000
}

/// The size in bytes of one RGBA frame.
pub open spec fn frame_bytes(v: RecorderView) -> int {
    v.width * v.height * 4
}

/// The file name of frame `n`: `frame_` and six zero-padded digits, `.png`.
pub open spec fn frame_file_name(n: nat) -> Seq<char> {
    "frame_"@ + zero_padded(n, 6) + ".png"@
}

/// The status line shown in the window title.
pub open spec fn status_spec(v: RecorderView) -> Seq<char> {
    match v.state {
        RecordingState::Idle => Seq::empty(),
        RecordingState::Recording => " [REC "@ + decimal(elapsed_ms(v) / 1000) + "s / "@ + decimal(
            v.max_secs as nat,
        ) + "s  "@ + decimal(v.frame_count as nat) + " frames]"@,
        RecordingState::Encoding => " [ENCODING "@ + decimal(v.frame_count as nat)
            + " frames\u{2026}]"@,
    }
}

/// `v` with a new state.
pub open spec fn with_state(v: RecorderView, s: RecordingState) -> RecorderView {
    RecorderView { state: s, ..v }
}

impl PhasePortraitRecorder {
    /// Create a new recorder; `fps` defaults to 30 and `max_secs` to 10 when 0 is passed.
    pub fn new(width: u32, height: u32, fps: u32, max_secs: u32, output: String) -> (r: Self)
        ensures
            r@ == (RecorderView {
                state: RecordingState::Idle,
                width,
                height,
                fps: if fps == 0 {
                    30
                } else {
                    fps
                },
                max_secs: if max_secs == 0 {
                    10
                } else {
                    max_secs
                },
                start_ms: None,
                now_ms: 0,
                frames_dir: None,
                frame_count: 0,
                output: output@,
            }),
    {
        let fps = if fps == 0 {
            30
        } else {
            fps
        };
        let max_secs = if max_secs == 0 {
            10
        } else {
            max_secs
        };
        PhasePortraitRecorder {
            state: RecordingState::Idle,
            width,
            height,
            fps,
            max_secs,
            start_ms: None,
            now_ms: 0,
            frames_dir: None,
            frame_count: 0,
            output_path: output,
        }
    }

    /// The current recording state.
    pub fn state(&self) -> (s: RecordingState)
        ensures
            s == self@.state,
    {
        self.state
    }

    /// Returns `true` if the recorder is actively capturing.
    pub fn is_recording(&self) -> (b: bool)
        ensures
            b == (self@.state == RecordingState::Recording),
    {
        self.state == RecordingState::Recording
    }

    /// Number of frames captured so far.
    pub fn frame_count(&self) -> (n: usize)
        ensures
            n == self@.frame_count,
    {
        self.frame_count
    }

    /// Records the current clock reading in milliseconds.
    pub fn tick(&mut self, now_ms: u64)
        ensures
            final(self)@ == (RecorderView { now_ms, ..old(self)@ }),
    {
        self.now_ms = now_ms;
    }

    /// Start recording.  A no-op while recording; fails on a zero dimension;
    /// otherwise asks for a frames directory (see [`Self::begin`]).
    pub fn start(&mut self) -> (r: Result<RecorderAction, RecorderError>)
        ensures
            final(self)@ == old(self)@,
            old(self)@.state == RecordingState::Recording ==> (r matches Ok(a) && a@
                is Nothing),
            old(self)@.state != RecordingState::Recording && (old(self)@.width == 0
                || old(self)@.height == 0) ==> r matches Err(RecorderError::InvalidDimensions),
            old(self)@.state != RecordingState::Recording && old(self)@.width != 0
                && old(self)@.height != 0 ==> (r matches Ok(a) && a@ is CreateFramesDir),
    {
        if self.state == RecordingState::Recording {
            return Ok(RecorderAction::Nothing);
        }
        if self.width == 0 || self.height == 0 {
            return Err(RecorderError::InvalidDimensions);
        }
        Ok(RecorderAction::CreateFramesDir)
    }

    /// The frames directory exists: recording begins at the current clock reading.
    pub fn begin(&mut self, frames_dir: String)
        ensures
            final(self)@ == (RecorderView {
                state: RecordingState::Recording,
                start_ms: Some(old(self)@.now_ms),
                frames_dir: Some(frames_dir@),
                frame_count: 0,
                ..old(self)@
            }),
    {
        self.frames_dir = Some(frames_dir);
        self.frame_count = 0;
        self.start_ms = Some(self.now_ms);
        self.state = RecordingState::Recording;
    }

    /// Offer one RGBA frame of `len` bytes.  Ignored unless recording; stops
    /// (back to idle) once the duration is reached; frames of the wrong size
    /// are skipped; otherwise asks for the frame to be written.
    pub fn push_frame(&mut self, len: usize) -> (r: Result<RecorderAction, RecorderError>)
        requires
            old(self)@.state == RecordingState::Recording && !timed_out(old(self)@) ==> frame_bytes(
                old(self)@,
            ) <= u32::MAX,
        ensures
            ({
                let v = old(self)@;
                if v.state != RecordingState::Recording {
                    final(self)@ == v && (r matches Ok(a) && a@ is Nothing)
                } else if timed_out(v) {
                    final(self)@ == with_state(v, RecordingState::Idle) && (r matches Ok(a) && a@
                        is Nothing)
                } else if len != frame_bytes(v) {
                    final(self)@ == v && (r matches Ok(a) && a@ is Nothing)
                } else {
                    final(self)@ == v && match v.frames_dir {
                        None => r matches Err(RecorderError::NoFramesDir),
                        Some(d) => r matches Ok(a) && a@ == (ActionView::WriteFrame {
                            dir: d,
                            file_name: frame_file_name(v.frame_count as nat),
                        }),
                    }
                }
            }),
    {
        if self.state != RecordingState::Recording {
            return Ok(RecorderAction::Nothing);
        }
        if let Some(start) = self.start_ms {
            let elapsed: u64 = if self.now_ms >= start {
                self.now_ms - start
            } else {
                0
            };
            if elapsed >= self.max_secs as u64 * 1000 {
                self.state = RecordingState::Idle;
                return Ok(RecorderAction::Nothing);
            }
        }
        let expected: usize = (self.width * self.height * 4) as usize;
        if len != expected {
            return Ok(RecorderAction::Nothing);
        }
        match &self.frames_dir {
            None => Err(RecorderError::NoFramesDir),
            Some(d) => {
                let dir = d.clone();
                let mut file_name = String::from_str("frame_");
                push_zero_padded(&mut file_name, self.frame_count as u64, 6);
                file_name.append(".png");
                Ok(RecorderAction::WriteFrame { dir, file_name })
            },
        }
    }

    /// The requested frame has been written.
    pub fn frame_written(&mut self)
        requires
            old(self)@.frame_count < usize::MAX,
        ensures
            final(self)@ == (RecorderView { frame_count: (old(self)@.frame_count + 1) as usize, ..old(self)@ }),
    {
        self.frame_count = self.frame_count + 1;
    }

    /// Stop recording: the state becomes `Encoding` and the captured frames
    /// are handed over for encoding; fails when no frames directory is set.
    pub fn finish(&mut self) -> (r: Result<RecorderAction, RecorderError>)
        ensures
            match old(self)@.frames_dir {
                None => final(self)@ == with_state(old(self)@, RecordingState::Encoding) && r matches Err(
                    RecorderError::NoFramesDir,
                ),
                Some(d) => final(self)@ == (RecorderView {
                    state: RecordingState::Encoding,
                    frames_dir: None,
                    ..old(self)@
                }) && (r matches Ok(a) && a@ == (ActionView::Encode {
                    frames_dir: d,
                    output: old(self)@.output,
                    fps: old(self)@.fps,
                })),
            },
    {
        self.state = RecordingState::Encoding;
        match self.frames_dir.take() {
            None => Err(RecorderError::NoFramesDir),
            Some(dir) => {
                let output = self.output_path.clone();
                Ok(RecorderAction::Encode { frames_dir: dir, output, fps: self.fps })
            },
        }
    }

    /// The GIF has been written: back to idle with no frames.
    pub fn encoding_done(&mut self)
        ensures
            final(self)@ == (RecorderView {
                state: RecordingState::Idle,
                frame_count: 0,
                ..old(self)@
            }),
    {
        self.state = RecordingState::Idle;
        self.frame_count = 0;
    }

    /// Toggle recording: idle starts, recording finishes, encoding does nothing.
    pub fn toggle(&mut self) -> (r: Result<RecorderAction, RecorderError>)
        ensures
            old(self)@.state == RecordingState::Encoding ==> final(self)@ == old(self)@ && (r matches Ok(
                a,
            ) && a@ is Nothing),
            old(self)@.state == RecordingState::Idle ==> final(self)@ == old(self)@ && (if old(
                self,
            )@.width == 0 || old(self)@.height == 0 {
                r matches Err(RecorderError::InvalidDimensions)
            } else {
                r matches Ok(a) && a@ is CreateFramesDir
            }),
            old(self)@.state == RecordingState::Recording ==> match old(self)@.frames_dir {
                None => final(self)@ == with_state(old(self)@, RecordingState::Encoding) && r matches Err(
                    RecorderError::NoFramesDir,
                ),
                Some(d) => final(self)@ == (RecorderView {
                    state: RecordingState::Encoding,
                    frames_dir: None,
                    ..old(self)@
                }) && (r matches Ok(a) && a@ == (ActionView::Encode {
                    frames_dir: d,
                    output: old(self)@.output,
                    fps: old(self)@.fps,
                })),
            },
    {
        match self.state {
            RecordingState::Idle => self.start(),
            RecordingState::Recording => self.finish(),
            RecordingState::Encoding => Ok(RecorderAction::Nothing),
        }
    }

    /// A short status string suitable for display in the window title.
    pub fn status_text(&self) -> (s: String)
        ensures
            s@ == status_spec(self@),
    {
        match self.state {
            RecordingState::Idle => String::new(),
            RecordingState::Recording => {
                let elapsed: u64 = match self.start_ms {
                    Some(start) => if self.now_ms >= start {
                        self.now_ms - start
                    } else {
                        0
                    },
                    None => 0,
                };
                let mut s = String::from_str(" [REC ");
                push_decimal(&mut s, elapsed / 1000);
                s.append("s / ");
                push_decimal(&mut s, self.max_secs as u64);
                s.append("s  ");
                push_decimal(&mut s, self.frame_count as u64);
                s.append(" frames]");
                s
            },
            RecordingState::Encoding => {
                let mut s = String::from_str(" [ENCODING ");
                push_decimal(&mut s, self.frame_count as u64);
                s.append(" frames\u{2026}]");
                s
            },
        }
    }
}

} // verus!
