//! The colours of the windows, by what they mean.

use vstd::prelude::*;

use crate::text::same;

verus! {

/// How a window looks.
#[derive(Debug, Clone, Copy, PartialEq, Eq, Structural)]
pub enum WindowAppearance {
    Light,
    VibrantLight,
    Dark,
    VibrantDark,
}

/// A colour for each meaning, as red, green and blue in one number.
#[derive(Debug, Clone, Copy, PartialEq, Eq, Structural)]
pub struct Theme {
    pub bg: u32,
    pub surface: u32,
    pub border: u32,
    pub text: u32,
    pub text_muted: u32,
    pub accent: u32,
    pub ok: u32,
    pub drift: u32,
    pub conflict: u32,
}

/// A colour laid thinly over what is below it.
#[derive(Debug, Clone, Copy, PartialEq, Eq, Structural)]
pub struct Wash {
    pub color: u32,
    pub percent: u8,
}

impl Theme {
    /// The colours on a dark ground.
    pub open spec fn dark_theme() -> Theme {
        Theme {
            bg: 0x0d1117,
            surface: 0x161b22,
            border: 0x30363d,
            text: 0xc9d1d9,
            text_muted: 0x8b949e,
            accent: 0x58a6ff,
            ok: 0x3fb950,
            drift: 0xd29922,
            conflict: 0xf85149,
        }
    }

    /// The colours on a light ground.
    pub open spec fn light_theme() -> Theme {
        Theme {
            bg: 0xffffff,
            surface: 0xf6f8fa,
            border: 0xd0d7de,
            text: 0x1f2328,
            text_muted: 0x656d76,
            accent: 0x0969da,
            ok: 0x1a7f37,
            drift: 0x9a6700,
            conflict: 0xcf222e,
        }
    }

    pub fn dark() -> (r: Self)
        ensures
            r == Theme::dark_theme(),
    {
        Theme {
            bg: 0x0d1117,
            surface: 0x161b22,
            border: 0x30363d,
            text: 0xc9d1d9,
            text_muted: 0x8b949e,
            accent: 0x58a6ff,
            ok: 0x3fb950,
            drift: 0xd29922,
            conflict: 0xf85149,
        }
    }

    pub fn light() -> (r: Self)
        ensures
            r == Theme::light_theme(),
    {
        Theme {
            bg: 0xffffff,
            surface: 0xf6f8fa,
            border: 0xd0d7de,
            text: 0x1f2328,
            text_muted: 0x656d76,
            accent: 0x0969da,
            ok: 0x1a7f37,
            drift: 0x9a6700,
            conflict: 0xcf222e,
        }
    }

    /// The colours for how a window looks.
    pub fn for_appearance(appearance: WindowAppearance) -> (r: Self)
        ensures
            r == (match appearance {
                WindowAppearance::Dark | WindowAppearance::VibrantDark => Theme::dark_theme(),
                WindowAppearance::Light | WindowAppearance::VibrantLight => Theme::light_theme(),
            }),
    {
        match appearance {
            WindowAppearance::Dark | WindowAppearance::VibrantDark => Theme::dark(),
            WindowAppearance::Light | WindowAppearance::VibrantLight => Theme::light(),
        }
    }

    /// The colour of a class of drift.
    pub open spec fn color_of(self, class: Seq<char>) -> u32 {
        if class == "conflict"@ || class == "local_source_diverged"@ || class == "eval_failed"@ {
            self.conflict
        } else if class == "destination_drift"@ || class == "source_ahead"@ {
            self.drift
        } else if class == "remote_ahead"@ {
            self.accent
        } else {
            self.ok
        }
    }

    /// The colour of a class of drift, by how much it asks of somebody.
    pub fn class_color(&self, class: &str) -> (r: u32)
        ensures
            r == self.color_of(class@),
    {
        if same(class, "conflict") || same(class, "local_source_diverged") || same(
            class,
            "eval_failed",
        ) {
            self.conflict
        } else if same(class, "destination_drift") || same(class, "source_ahead") {
            self.drift
        } else if same(class, "remote_ahead") {
            self.accent
        } else {
            self.ok
        }
    }
}

} // verus!
