//! Conversion between the standalone and the package flavors of Glyphs font files.
use vstd::prelude::*;

pub mod framing;
pub mod grammar;
pub mod laws;
pub mod pack;
pub mod plist;
pub mod roundtrip;
pub mod text;
pub mod unpack;

verus! {

/// The extension of a glyph file in a package.
pub const FILE_EXT_GLYPH: &'static str = "glyph";

/// The files and the directory of a package.
pub const FILE_PACKAGE_FONTINFO: &'static str = "fontinfo.plist";
pub const FILE_PACKAGE_ORDER: &'static str = "order.plist";
pub const FILE_PACKAGE_UI_STATE: &'static str = "UIState.plist";
pub const FILE_PACKAGE_GLYPHS: &'static str = "glyphs";

/// The keys that the conversion looks at.
pub const KEY_DISPLAY_STRINGS_PACKAGE: &'static str = "displayStrings";
pub const KEY_DISPLAY_STRINGS_STANDALONE: &'static str = "DisplayStrings";
pub const KEY_GLYPH_NAME: &'static str = "glyphname";
pub const KEY_GLYPHS: &'static str = "glyphs";

} // verus!
