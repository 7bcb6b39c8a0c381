//! Reader settings that are plain values: text alignment, the color theme,
//! and the bundled font families.

use vstd::prelude::*;
use crate::text::same_str;

verus! {

/// Alignment of the text column.
#[derive(Debug, Clone, Copy, PartialEq, Eq, Structural)]
pub enum TextAlign {
    Left,
    Center,
    Right,
}

impl Default for TextAlign {
    fn default() -> (r: Self)
        ensures
            r == TextAlign::Left,
    {
        TextAlign::Left
    }
}

impl TextAlign {
    /// The name shown in the settings.
    pub fn label(&self) -> (r: &'static str)
        ensures
            r@ == match *self {
                TextAlign::Left => "Left"@,
                TextAlign::Center => "Center"@,
                TextAlign::Right => "Right"@,
            },
    {
        match self {
            TextAlign::Left => "Left",
            TextAlign::Center => "Center",
            TextAlign::Right => "Right",
        }
    }
}

/// The application's color theme.
#[derive(Debug, Clone, Copy, PartialEq, Eq, Structural)]
pub enum Theme {
    Dark,
    Light,
}

/// The value a setting missing from a saved configuration takes when it
/// defaults to on.
pub fn default_true() -> (r: bool)
    ensures
        r,
{
    true
}

/// The bundled font families, in the order the settings list them.
pub open spec fn family_names() -> Seq<Seq<char>> {
    seq![
        "Alegreya"@,
        "Atkinson Hyperlegible"@,
        "EB Garamond"@,
        "Inter"@,
        "Lato"@,
        "Literata"@,
        "Merriweather"@,
        "Noto Sans JP"@,
        "Noto Serif JP"@,
        "Nunito"@,
        "Poltawski Nowy"@,
        "Source Sans 3"@,
        "Vollkorn"@,
    ]
}

pub open spec fn str_views(v: Seq<&str>) -> Seq<Seq<char>> {
    v.map_values(|s: &str| s@)
}

/// The bundled font families.
pub fn font_families() -> (r: Vec<&'static str>)
    ensures
        str_views(r@) == family_names(),
{
    let r = vec![
        "Alegreya",
        "Atkinson Hyperlegible",
        "EB Garamond",
        "Inter",
        "Lato",
        "Literata",
        "Merriweather",
        "Noto Sans JP",
        "Noto Serif JP",
        "Nunito",
        "Poltawski Nowy",
        "Source Sans 3",
        "Vollkorn",
    ];
    assert(str_views(r@) =~= family_names());
    r
}

/// The position of a family among the bundled fonts, where its font data
/// is; `None` for a family that is not bundled.
pub fn font_index(family: &str) -> (r: Option<usize>)
    ensures
        match r {
            Some(i) => i < family_names().len() && family_names()[i as int] == family@,
            None => !family_names().contains(family@),
        },
{
    let names = font_families();
    let mut i: usize = 0;
    while i < names.len()
        invariant
            0 <= i <= names.len(),
            str_views(names@) == family_names(),
            forall|j: int| 0 <= j < i ==> family_names()[j] != family@,
        decreases names.len() - i,
    {
        assert(str_views(names@)[i as int] == names@[i as int]@);
        if same_str(names[i], family) {
            return Some(i);
        }
        i += 1;
    }
    proof {
        if family_names().contains(family@) {
            let j = choose|j: int| 0 <= j < family_names().len() && family_names()[j] == family@;
            assert(family_names()[j] != family@);
        }
    }
    None
}

} // verus!
