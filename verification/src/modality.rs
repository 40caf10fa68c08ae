//! Input modalities and the encoders' settings.
use vstd::prelude::*;

verus! {

/// The kind of input a piece of knowledge came from.
#[derive(Debug, Clone, PartialEq, Eq, Hash)]
pub enum Modality {
    Text,
    Image,
    Audio,
    Video,
    Structured,
    Custom(String),
}

/// How a modality is written: its lower-case name, `custom:<name>` for a
/// custom one.
pub open spec fn modality_text(m: Modality) -> Seq<char> {
    match m {
        Modality::Text => "text"@,
        Modality::Image => "image"@,
        Modality::Audio => "audio"@,
        Modality::Video => "video"@,
        Modality::Structured => "structured"@,
        Modality::Custom(name) => "custom:"@ + name@,
    }
}

impl Modality {
    /// The modality as text (see `modality_text`).
    pub fn to_text(&self) -> (r: String)
        ensures
            r@ == modality_text(*self),
    {
        match self {
            Modality::Text => String::from_str("text"),
            Modality::Image => String::from_str("image"),
            Modality::Audio => String::from_str("audio"),
            Modality::Video => String::from_str("video"),
            Modality::Structured => String::from_str("structured"),
            Modality::Custom(name) => {
                let mut s = String::from_str("custom:");
                s.append(name.as_str());
                s
            },
        }
    }
}

/// The text encoder's settings: its window of features.
#[derive(Debug, Clone, Copy)]
pub struct TextModalityEncoder {
    window_size: usize,
}

impl TextModalityEncoder {
    pub closed spec fn window(&self) -> usize {
        self.window_size
    }

    pub fn new(window_size: usize) -> (r: Self)
        ensures
            r.window() == window_size,
    {
        TextModalityEncoder { window_size }
    }

    pub fn window_size(&self) -> (r: usize)
        ensures
            r == self.window(),
    {
        self.window_size
    }

    pub fn modality(&self) -> (r: Modality)
        ensures
            r == Modality::Text,
    {
        Modality::Text
    }
}

/// The image encoder's settings: the side of its square patches.
#[derive(Debug, Clone, Copy)]
pub struct ImageModalityEncoder {
    patch_size: usize,
}

impl ImageModalityEncoder {
    pub closed spec fn patch(&self) -> usize {
        self.patch_size
    }

    pub fn new(patch_size: usize) -> (r: Self)
        ensures
            r.patch() == patch_size,
    {
        ImageModalityEncoder { patch_size }
    }

    pub fn patch_size(&self) -> (r: usize)
        ensures
            r == self.patch(),
    {
        self.patch_size
    }

    pub fn modality(&self) -> (r: Modality)
        ensures
            r == Modality::Image,
    {
        Modality::Image
    }
}

} // verus!
