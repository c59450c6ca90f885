use vstd::prelude::*;

verus! {

/// The colour maps that turn an iteration count into a pixel colour.
#[derive(Clone, Copy, Debug, PartialEq, Eq, Structural)]
pub enum ColorMap {
    HsvClassic,
    HsvCycle,
    Grayscale,
    Fire,
    Ocean,
    Rainbow,
    Viridis,
    Magma,
    Plasma,
}

/// Names what `str::to_lowercase` makes of a string: its Unicode lowercase form.
pub uninterp spec fn lowercased(s: Seq<char>) -> Seq<char>;

/// Calls `str::to_lowercase`, which returns the lowercase equivalent of the
/// string as a new `String`. Claimed: the result depends on the characters
/// of `s` alone; it is named `lowercased`. What the Unicode lowercase
/// mapping does to each character is not stated.
#[verifier::external_body]
fn to_lowercase(s: &str) -> (r: String)
    ensures
        r@ == lowercased(s@),
{
    s.to_lowercase()
}

/// Whether two strings hold the same characters.
fn same_text(a: &str, b: &str) -> (r: bool)
    ensures
        r == (a@ == b@),
{
    a.to_owned() == b.to_owned()
}

/// The colour map that a lowercase name selects: `hsvclassic` or `classic`,
/// `hsvcycle`, `grayscale` or `grey`, `fire`, `ocean`, `rainbow`,
/// `viridis`, `magma`, `plasma`; no map for any other name.
pub open spec fn colormap_named(s: Seq<char>) -> Option<ColorMap> {
    if s == "hsvclassic"@ || s == "classic"@ {
        Some(ColorMap::HsvClassic)
    } else if s == "hsvcycle"@ {
        Some(ColorMap::HsvCycle)
    } else if s == "grayscale"@ || s == "grey"@ {
        Some(ColorMap::Grayscale)
    } else if s == "fire"@ {
        Some(ColorMap::Fire)
    } else if s == "ocean"@ {
        Some(ColorMap::Ocean)
    } else if s == "rainbow"@ {
        Some(ColorMap::Rainbow)
    } else if s == "viridis"@ {
        Some(ColorMap::Viridis)
    } else if s == "magma"@ {
        Some(ColorMap::Magma)
    } else if s == "plasma"@ {
        Some(ColorMap::Plasma)
    } else {
        None
    }
}

/// The canonical name of each colour map.
pub open spec fn colormap_name(c: ColorMap) -> Seq<char> {
    match c {
        ColorMap::HsvClassic => "hsvclassic"@,
        ColorMap::HsvCycle => "hsvcycle"@,
        ColorMap::Grayscale => "grayscale"@,
        ColorMap::Fire => "fire"@,
        ColorMap::Ocean => "ocean"@,
        ColorMap::Rainbow => "rainbow"@,
        ColorMap::Viridis => "viridis"@,
        ColorMap::Magma => "magma"@,
        ColorMap::Plasma => "plasma"@,
    }
}

impl ColorMap {
    /// The colour map selected by an already lowercase name, if any.
    pub fn from_lowercase_name(name: &str) -> (c: Option<ColorMap>)
        ensures
            c == colormap_named(name@),
    {
        if same_text(name, "hsvclassic") || same_text(name, "classic") {
            Some(ColorMap::HsvClassic)
        } else if same_text(name, "hsvcycle") {
            Some(ColorMap::HsvCycle)
        } else if same_text(name, "grayscale") || same_text(name, "grey") {
            Some(ColorMap::Grayscale)
        } else if same_text(name, "fire") {
            Some(ColorMap::Fire)
        } else if same_text(name, "ocean") {
            Some(ColorMap::Ocean)
        } else if same_text(name, "rainbow") {
            Some(ColorMap::Rainbow)
        } else if same_text(name, "viridis") {
            Some(ColorMap::Viridis)
        } else if same_text(name, "magma") {
            Some(ColorMap::Magma)
        } else if same_text(name, "plasma") {
            Some(ColorMap::Plasma)
        } else {
            None
        }
    }

    /// The colour map selected by `name`, compared without regard to case.
    pub fn from_name(name: &str) -> (c: Option<ColorMap>)
        ensures
            c == colormap_named(lowercased(name@)),
    {
        let lower = to_lowercase(name);
        ColorMap::from_lowercase_name(lower.as_str())
    }

    /// The canonical name of the colour map.
    pub fn name(&self) -> (s: &'static str)
        ensures
            s@ == colormap_name(*self),
    {
        match self {
            ColorMap::HsvClassic => "hsvclassic",
            ColorMap::HsvCycle => "hsvcycle",
            ColorMap::Grayscale => "grayscale",
            ColorMap::Fire => "fire",
            ColorMap::Ocean => "ocean",
            ColorMap::Rainbow => "rainbow",
            ColorMap::Viridis => "viridis",
            ColorMap::Magma => "magma",
            ColorMap::Plasma => "plasma",
        }
    }
}

/// Each colour map's canonical name selects that colour map again.
pub proof fn lemma_name_selects(c: ColorMap)
    ensures
        colormap_named(colormap_name(c)) == Some(c),
{
    reveal_strlit("hsvclassic");
    reveal_strlit("classic");
    reveal_strlit("hsvcycle");
    reveal_strlit("grayscale");
    reveal_strlit("grey");
    reveal_strlit("fire");
    reveal_strlit("ocean");
    reveal_strlit("rainbow");
    reveal_strlit("viridis");
    reveal_strlit("magma");
    reveal_strlit("plasma");
    let n = colormap_name(c);
    match c {
        ColorMap::HsvClassic => {},
        ColorMap::HsvCycle => {
            assert(n.len() == 8 && "hsvclassic"@.len() == 10 && "classic"@.len() == 7);
        },
        ColorMap::Grayscale => {
            assert(n[0] == 'g' && "hsvclassic"@[0] == 'h' && "classic"@[0] == 'c' && "hsvcycle"@[0] == 'h');
        },
        ColorMap::Fire => {
            assert(n[0] == 'f');
        },
        ColorMap::Ocean => {
            assert(n[0] == 'o');
        },
        ColorMap::Rainbow => {
            assert(n[0] == 'r');
        },
        ColorMap::Viridis => {
            assert(n[0] == 'v');
        },
        ColorMap::Magma => {
            assert(n[0] == 'm');
        },
        ColorMap::Plasma => {
            assert(n[0] == 'p');
        },
    }
}

/// How the channel values `c` (chroma), `x` (second largest component) and
/// `z` (zero) are laid out as red, green and blue in each 60-degree sector
/// of the hue circle; sector numbers past 4 use the last layout.
pub open spec fn spec_sector_channels<T>(sector: i32, c: T, x: T, z: T) -> (T, T, T) {
    if sector == 0 {
        (c, x, z)
    } else if sector == 1 {
        (x, c, z)
    } else if sector == 2 {
        (z, c, x)
    } else if sector == 3 {
        (z, x, c)
    } else if sector == 4 {
        (x, z, c)
    } else {
        (c, z, x)
    }
}

/// Lays out the channel values of an HSV colour as red, green and blue for
/// the hue sector `sector` (hue divided by 60 degrees).
pub fn sector_channels<T: Copy>(sector: i32, c: T, x: T, z: T) -> (rgb: (T, T, T))
    ensures
        rgb == spec_sector_channels(sector, c, x, z),
{
    match sector {
        0 => (c, x, z),
        1 => (x, c, z),
        2 => (z, c, x),
        3 => (z, x, c),
        4 => (x, z, c),
        _ => (c, z, x),
    }
}

} // verus!
