use vstd::prelude::*;
use crate::colormap::ColorMap;

verus! {

/// The iteration base the viewer starts from and returns to on reset.
pub const START_ITER_BASE: u32 = 180;

/// The smallest iteration base the viewer lowers to.
pub const MIN_ITER_BASE: u32 = 50;

/// The largest iteration base the viewer raises to.
pub const MAX_ITER_BASE: u32 = 2000;

/// The step by which the iteration base is raised or lowered.
pub const ITER_BASE_STEP: u32 = 20;

/// The most iterations the viewer ever spends on a pixel.
pub const MAX_ITER_CAP: u32 = 8000;

/// The rendering settings of the interactive viewer that its keys change.
#[derive(Clone, Copy, Debug, PartialEq, Eq, Structural)]
pub struct ViewerSettings {
    /// Iterations spent per pixel before the zoom adds more.
    pub max_iter_base: u32,
    /// The colour map frames are drawn with.
    pub colormap: ColorMap,
}

/// What a key press asks of the settings.
#[derive(Clone, Copy, Debug, PartialEq, Eq, Structural)]
pub enum ViewerKey {
    /// Back to the starting settings.
    Reset,
    /// Draw with the given colour map.
    Colormap(ColorMap),
    /// Raise the iteration base by one step, up to the largest base.
    MoreIterations,
    /// Lower the iteration base by one step, down to the smallest base.
    FewerIterations,
}

/// The colour map that the digit key `d` selects: 1 hsvclassic, 2 hsvcycle,
/// 3 grayscale, 4 fire, 5 ocean, 6 rainbow, 7 viridis, 8 magma, 9 plasma.
pub open spec fn spec_colormap_for_digit(d: u8) -> Option<ColorMap> {
    if d == 1 {
        Some(ColorMap::HsvClassic)
    } else if d == 2 {
        Some(ColorMap::HsvCycle)
    } else if d == 3 {
        Some(ColorMap::Grayscale)
    } else if d == 4 {
        Some(ColorMap::Fire)
    } else if d == 5 {
        Some(ColorMap::Ocean)
    } else if d == 6 {
        Some(ColorMap::Rainbow)
    } else if d == 7 {
        Some(ColorMap::Viridis)
    } else if d == 8 {
        Some(ColorMap::Magma)
    } else if d == 9 {
        Some(ColorMap::Plasma)
    } else {
        None
    }
}

/// The colour map that the digit key `d` selects, if any.
pub fn colormap_for_digit(d: u8) -> (c: Option<ColorMap>)
    ensures
        c == spec_colormap_for_digit(d),
{
    match d {
        1 => Some(ColorMap::HsvClassic),
        2 => Some(ColorMap::HsvCycle),
        3 => Some(ColorMap::Grayscale),
        4 => Some(ColorMap::Fire),
        5 => Some(ColorMap::Ocean),
        6 => Some(ColorMap::Rainbow),
        7 => Some(ColorMap::Viridis),
        8 => Some(ColorMap::Magma),
        9 => Some(ColorMap::Plasma),
        _ => None,
    }
}

/// The settings after the key `key`.
pub open spec fn next_settings(s: ViewerSettings, key: ViewerKey) -> ViewerSettings {
    match key {
        ViewerKey::Reset => ViewerSettings { max_iter_base: START_ITER_BASE, colormap: ColorMap::HsvClassic },
        ViewerKey::Colormap(c) => ViewerSettings { colormap: c, ..s },
        ViewerKey::MoreIterations => ViewerSettings {
            max_iter_base: if s.max_iter_base + ITER_BASE_STEP <= MAX_ITER_BASE {
                (s.max_iter_base + ITER_BASE_STEP) as u32
            } else {
                MAX_ITER_BASE
            },
            ..s
        },
        ViewerKey::FewerIterations => ViewerSettings {
            max_iter_base: if s.max_iter_base >= MIN_ITER_BASE + ITER_BASE_STEP {
                (s.max_iter_base - ITER_BASE_STEP) as u32
            } else {
                MIN_ITER_BASE
            },
            ..s
        },
    }
}

impl ViewerSettings {
    /// The settings the viewer starts with.
    pub fn new() -> (s: ViewerSettings)
        ensures
            s == (ViewerSettings { max_iter_base: START_ITER_BASE, colormap: ColorMap::HsvClassic }),
    {
        ViewerSettings { max_iter_base: START_ITER_BASE, colormap: ColorMap::HsvClassic }
    }

    /// Applies one key press.
    pub fn apply(&mut self, key: ViewerKey)
        requires
            key == ViewerKey::MoreIterations ==> old(self).max_iter_base + ITER_BASE_STEP <= u32::MAX,
        ensures
            *final(self) == next_settings(*old(self), key),
            key matches ViewerKey::Colormap(c) ==> final(self).colormap == c && final(self).max_iter_base
                == old(self).max_iter_base,
            (key is MoreIterations || key is FewerIterations) ==> final(self).colormap == old(
                self,
            ).colormap,
            key is Reset ==> final(self).max_iter_base == 180 && final(self).colormap
                == ColorMap::HsvClassic,
    {
        match key {
            ViewerKey::Reset => {
                self.max_iter_base = START_ITER_BASE;
                self.colormap = ColorMap::HsvClassic;
            },
            ViewerKey::Colormap(c) => {
                self.colormap = c;
            },
            ViewerKey::MoreIterations => {
                let raised = self.max_iter_base + ITER_BASE_STEP;
                self.max_iter_base = if raised <= MAX_ITER_BASE {
                    raised
                } else {
                    MAX_ITER_BASE
                };
            },
            ViewerKey::FewerIterations => {
                let lowered = self.max_iter_base.saturating_sub(ITER_BASE_STEP);
                self.max_iter_base = if lowered >= MIN_ITER_BASE {
                    lowered
                } else {
                    MIN_ITER_BASE
                };
            },
        }
    }

    /// The iterations to spend per pixel when the zoom asks for `extra`
    /// more: the base plus `extra`, capped at `MAX_ITER_CAP`.
    pub fn max_iter(&self, extra: u32) -> (n: u32)
        requires
            self.max_iter_base + extra <= u32::MAX,
        ensures
            n == if self.max_iter_base + extra <= MAX_ITER_CAP {
                self.max_iter_base + extra
            } else {
                MAX_ITER_CAP as int
            },
    {
        let total = self.max_iter_base + extra;
        if total <= MAX_ITER_CAP {
            total
        } else {
            MAX_ITER_CAP
        }
    }
}

/// Whatever key is pressed, settings whose iteration base lies between the
/// smallest and the largest base keep it there.
pub proof fn lemma_iter_base_stays_in_range(s: ViewerSettings, key: ViewerKey)
    requires
        MIN_ITER_BASE <= s.max_iter_base <= MAX_ITER_BASE,
    ensures
        MIN_ITER_BASE <= next_settings(s, key).max_iter_base <= MAX_ITER_BASE,
{
}

/// Resetting forgets every earlier key: after a reset the settings are the
/// starting ones, whatever they were before.
pub proof fn lemma_reset_restores_start(s: ViewerSettings)
    ensures
        next_settings(s, ViewerKey::Reset) == (ViewerSettings {
            max_iter_base: START_ITER_BASE,
            colormap: ColorMap::HsvClassic,
        }),
{
}

/// A colour-map key draws with exactly the map it carries and leaves the
/// iteration base alone, whatever the settings were.
pub proof fn lemma_colormap_key_selects(s: ViewerSettings, c: ColorMap)
    ensures
        next_settings(s, ViewerKey::Colormap(c)).colormap == c,
        next_settings(s, ViewerKey::Colormap(c)).max_iter_base == s.max_iter_base,
{
}

/// The iteration keys keep the colour map, and move the base by one step
/// towards their bound without passing it.
pub proof fn lemma_iteration_keys(s: ViewerSettings)
    ensures
        next_settings(s, ViewerKey::MoreIterations).colormap == s.colormap,
        next_settings(s, ViewerKey::FewerIterations).colormap == s.colormap,
        s.max_iter_base + 20 <= 2000 ==> next_settings(s, ViewerKey::MoreIterations).max_iter_base
            == s.max_iter_base + 20,
        s.max_iter_base + 20 > 2000 ==> next_settings(s, ViewerKey::MoreIterations).max_iter_base == 2000,
        s.max_iter_base >= 70 ==> next_settings(s, ViewerKey::FewerIterations).max_iter_base
            == s.max_iter_base - 20,
        s.max_iter_base < 70 ==> next_settings(s, ViewerKey::FewerIterations).max_iter_base == 50,
{
}

/// Inside the range of bases, one step up and one step down undo each other.
pub proof fn lemma_iteration_steps_undo(s: ViewerSettings)
    ensures
        50 <= s.max_iter_base && s.max_iter_base + 20 <= 2000 ==> next_settings(
            next_settings(s, ViewerKey::MoreIterations),
            ViewerKey::FewerIterations,
        ) == s,
        70 <= s.max_iter_base <= 2000 ==> next_settings(
            next_settings(s, ViewerKey::FewerIterations),
            ViewerKey::MoreIterations,
        ) == s,
{
}

/// The digit keys 1 to 9 each select a colour map, no two the same, so
/// every one of the nine maps has its own key; no other digit selects one.
pub proof fn lemma_digit_keys_select_each_map(d1: u8, d2: u8, c: ColorMap)
    ensures
        (1 <= d1 <= 9) <==> spec_colormap_for_digit(d1) is Some,
        1 <= d1 <= 9 && 1 <= d2 <= 9 && d1 != d2 ==> spec_colormap_for_digit(d1) != spec_colormap_for_digit(
            d2,
        ),
        exists|d: u8| 1 <= d <= 9 && spec_colormap_for_digit(d) == Some(c),
{
    match c {
        ColorMap::HsvClassic => assert(spec_colormap_for_digit(1) == Some(c)),
        ColorMap::HsvCycle => assert(spec_colormap_for_digit(2) == Some(c)),
        ColorMap::Grayscale => assert(spec_colormap_for_digit(3) == Some(c)),
        ColorMap::Fire => assert(spec_colormap_for_digit(4) == Some(c)),
        ColorMap::Ocean => assert(spec_colormap_for_digit(5) == Some(c)),
        ColorMap::Rainbow => assert(spec_colormap_for_digit(6) == Some(c)),
        ColorMap::Viridis => assert(spec_colormap_for_digit(7) == Some(c)),
        ColorMap::Magma => assert(spec_colormap_for_digit(8) == Some(c)),
        ColorMap::Plasma => assert(spec_colormap_for_digit(9) == Some(c)),
    }
}

} // verus!
