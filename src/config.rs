//! The resolved configuration: where the files are, the order in which
//! they are read, and which file wins when two define the same path.
use vstd::prelude::*;

verus! {

/// The base order of the files.
#[derive(Clone, Copy, Debug, PartialEq, Eq, Structural)]
pub enum SeekMode {
    /// Case-insensitive ascending order of the file paths.
    Alphabetical,
    /// The same order reversed.
    Unalphabetical,
}

/// Which file wins when two define the same path.
#[derive(Clone, Copy, Debug, PartialEq, Eq, Structural)]
pub enum TranslationOverlap {
    /// The last file in seek order wins.
    Overwrite,
    /// The first file in seek order wins.
    Ignore,
}

/// The configuration of the translation loader.
#[derive(Debug)]
pub struct TranslatableConfig {
    path: String,
    seek_mode: SeekMode,
    overlap: TranslationOverlap,
}

/// The default directory of the translation files.
fn default_path() -> (r: String)
    ensures
        r@ == "./translations"@,
{
    String::from_str("./translations")
}

/// The default seek mode.
fn default_seek_mode() -> (r: SeekMode)
    ensures
        r == SeekMode::Alphabetical,
{
    SeekMode::Alphabetical
}

/// The default overlap policy.
fn default_overlap() -> (r: TranslationOverlap)
    ensures
        r == TranslationOverlap::Overwrite,
{
    TranslationOverlap::Overwrite
}

impl TranslatableConfig {
    pub closed spec fn path_view(&self) -> Seq<char> {
        self.path@
    }

    pub closed spec fn seek_mode_view(&self) -> SeekMode {
        self.seek_mode
    }

    pub closed spec fn overlap_view(&self) -> TranslationOverlap {
        self.overlap
    }

    /// A configuration of the given values.
    pub fn new(path: String, seek_mode: SeekMode, overlap: TranslationOverlap) -> (r: Self)
        ensures
            r.path_view() == path@,
            r.seek_mode_view() == seek_mode,
            r.overlap_view() == overlap,
    {
        TranslatableConfig { path, seek_mode, overlap }
    }

    /// The configuration used when a setting is not given:
    /// `./translations`, alphabetical, overwrite.
    pub fn with_defaults() -> (r: Self)
        ensures
            r.path_view() == "./translations"@,
            r.seek_mode_view() == SeekMode::Alphabetical,
            r.overlap_view() == TranslationOverlap::Overwrite,
    {
        TranslatableConfig {
            path: default_path(),
            seek_mode: default_seek_mode(),
            overlap: default_overlap(),
        }
    }

    /// The directory of the translation files.
    pub fn path(&self) -> (r: &str)
        ensures
            r@ == self.path_view(),
    {
        self.path.as_str()
    }

    /// The base order of the files.
    pub fn seek_mode(&self) -> (r: &SeekMode)
        ensures
            *r == self.seek_mode_view(),
    {
        &self.seek_mode
    }

    /// Which file wins when two define the same path.
    pub fn overlap(&self) -> (r: &TranslationOverlap)
        ensures
            *r == self.overlap_view(),
    {
        &self.overlap
    }
}

} // verus!
