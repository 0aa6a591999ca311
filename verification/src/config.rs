//! Window and module configuration value types.

use vstd::prelude::*;

verus! {

/// How the window occupies the screen.
#[derive(Debug, Copy, Clone, PartialEq, Eq, Structural, Hash)]
pub enum FullscreenType {
    Windowed,
    True,
    Desktop,
}

/// Initial window creation parameters.
#[derive(Debug, Clone, PartialEq)]
pub struct WindowSetup {
    /// The window title.
    pub title: String,
    /// Anti-aliasing sample count.
    pub samples: NumSamples,
    /// Whether presentation waits for vertical sync.
    pub vsync: bool,
    /// Path of the window icon, empty for none.
    pub icon: String,
    /// Whether the surface is sRGB.
    pub srgb: bool,
}

impl Default for WindowSetup {
    /// A titled, vsynced, sRGB window without anti-aliasing or icon.
    fn default() -> (w: WindowSetup)
        ensures
            w.title@ == "A good game"@,
            w.samples == NumSamples::Zero,
            w.vsync == true,
            w.icon@ == ""@,
            w.srgb == true,
    {
        WindowSetup {
            title: "A good game".to_string(),
            samples: NumSamples::Zero,
            vsync: true,
            icon: "".to_string(),
            srgb: true,
        }
    }
}

/// Number of samples for anti-aliasing.
#[derive(Debug, Copy, Clone, PartialEq, Eq, Structural, Hash)]
pub enum NumSamples {
    Zero,
    One,
    Two,
    Four,
    Eight,
    Sixteen,
}

impl NumSamples {
    /// The sample count a variant stands for.
    pub open spec fn count(self) -> int {
        match self {
            NumSamples::Zero => 0,
            NumSamples::One => 1,
            NumSamples::Two => 2,
            NumSamples::Four => 4,
            NumSamples::Eight => 8,
            NumSamples::Sixteen => 16,
        }
    }

    /// The variant for a sample count, if it is a supported one.
    pub fn from_u32(i: u32) -> (r: Option<NumSamples>)
        ensures
            match r {
                Some(n) => n.count() == i,
                None => i != 0 && i != 1 && i != 2 && i != 4 && i != 8 && i != 16,
            },
    {
        match i {
            0 => Some(NumSamples::Zero),
            1 => Some(NumSamples::One),
            2 => Some(NumSamples::Two),
            4 => Some(NumSamples::Four),
            8 => Some(NumSamples::Eight),
            16 => Some(NumSamples::Sixteen),
            _ => None,
        }
    }
}

/// The graphics backend to request, with its API version.
#[derive(Debug, Copy, Clone, PartialEq, Eq, Structural, Hash)]
pub enum Backend {
    /// Desktop OpenGL.
    OpenGL {
        /// Major API version.
        major: u8,
        /// Minor API version.
        minor: u8,
    },
    /// OpenGL ES.
    OpenGLES {
        /// Major API version.
        major: u8,
        /// Minor API version.
        minor: u8,
    },
}

impl Default for Backend {
    /// Desktop OpenGL 3.2.
    fn default() -> (b: Backend)
        ensures
            b == (Backend::OpenGL { major: 3, minor: 2 }),
    {
        Backend::OpenGL { major: 3, minor: 2 }
    }
}

impl Backend {
    /// The same backend kind with a new API version.
    pub fn version(self, new_major: u8, new_minor: u8) -> (b: Backend)
        ensures
            b == match self {
                Backend::OpenGL { .. } => Backend::OpenGL { major: new_major, minor: new_minor },
                Backend::OpenGLES { .. } => Backend::OpenGLES {
                    major: new_major,
                    minor: new_minor,
                },
            },
    {
        match self {
            Backend::OpenGL { .. } => Backend::OpenGL { major: new_major, minor: new_minor },
            Backend::OpenGLES { .. } => Backend::OpenGLES { major: new_major, minor: new_minor },
        }
    }

    /// Switches to desktop OpenGL, keeping the version.
    pub fn gl(self) -> (b: Backend)
        ensures
            b == match self {
                Backend::OpenGLES { major, minor } => Backend::OpenGL { major, minor },
                Backend::OpenGL { major, minor } => Backend::OpenGL { major, minor },
            },
    {
        match self {
            Backend::OpenGLES { major, minor } => Backend::OpenGL { major, minor },
            gl => gl,
        }
    }

    /// Switches to OpenGL ES, keeping the version.
    pub fn gles(self) -> (b: Backend)
        ensures
            b == match self {
                Backend::OpenGL { major, minor } => Backend::OpenGLES { major, minor },
                Backend::OpenGLES { major, minor } => Backend::OpenGLES { major, minor },
            },
    {
        match self {
            Backend::OpenGL { major, minor } => Backend::OpenGLES { major, minor },
            es => es,
        }
    }
}

/// Which optional engine modules to enable.
#[derive(Debug, Copy, Clone, PartialEq, Eq, Structural, Hash)]
pub struct ModuleConfig {
    /// Whether the gamepad input module is enabled.
    pub gamepad: bool,
    /// Whether the audio module is enabled.
    pub audio: bool,
}

impl Default for ModuleConfig {
    /// All modules enabled.
    fn default() -> (m: ModuleConfig)
        ensures
            m == (ModuleConfig { gamepad: true, audio: true }),
    {
        ModuleConfig { gamepad: true, audio: true }
    }
}

impl ModuleConfig {
    /// Sets whether to enable the gamepad input module.
    pub fn gamepad(self, gamepad: bool) -> (m: ModuleConfig)
        ensures
            m == (ModuleConfig { gamepad, audio: self.audio }),
    {
        ModuleConfig { gamepad, audio: self.audio }
    }

    /// Sets whether to enable the audio module.
    pub fn audio(self, audio: bool) -> (m: ModuleConfig)
        ensures
            m == (ModuleConfig { gamepad: self.gamepad, audio }),
    {
        ModuleConfig { gamepad: self.gamepad, audio }
    }
}

} // verus!
