//! Image-level metadata: display orientation (EXIF / HEIF `irot` + `imir`),
//! HDR content light level, and raw Exif.
use vstd::prelude::*;

verus! {

/// Display orientation, using the eight EXIF orientation values. HEIF expresses
/// orientation with a rotation property (`irot`, anticlockwise multiples of 90°)
/// and a mirror property (`imir`); the diagonal EXIF values map to a mirror
/// followed by a rotation.
#[derive(Clone, Copy, Debug, PartialEq, Eq, Structural)]
pub enum Orientation {
    /// 1 — upright, no transform.
    Normal,
    /// 2 — mirrored horizontally.
    FlipH,
    /// 3 — rotated 180°.
    Rotate180,
    /// 4 — mirrored vertically.
    FlipV,
    /// 5 — transpose (mirror H then rotate 90° clockwise).
    Transpose,
    /// 6 — rotated 90° clockwise.
    Rotate90,
    /// 7 — transverse (mirror H then rotate 90° anticlockwise).
    Transverse,
    /// 8 — rotated 90° anticlockwise.
    Rotate270,
}

/// The orientation of an EXIF Orientation value; values outside 2..=8 are upright.
pub open spec fn orientation_of_exif(v: u16) -> Orientation {
    if v == 2 {
        Orientation::FlipH
    } else if v == 3 {
        Orientation::Rotate180
    } else if v == 4 {
        Orientation::FlipV
    } else if v == 5 {
        Orientation::Transpose
    } else if v == 6 {
        Orientation::Rotate90
    } else if v == 7 {
        Orientation::Transverse
    } else if v == 8 {
        Orientation::Rotate270
    } else {
        Orientation::Normal
    }
}

/// The HEIF `imir` axis of an orientation: `Some(false)` mirrors about a
/// vertical axis (left-right flip), `Some(true)` about a horizontal axis.
pub open spec fn spec_imir_axis(o: Orientation) -> Option<bool> {
    match o {
        Orientation::FlipH | Orientation::Transpose | Orientation::Transverse => Some(false),
        Orientation::FlipV => Some(true),
        _ => None,
    }
}

/// The HEIF `irot` rotation of an orientation, in anticlockwise 90° steps.
pub open spec fn spec_irot_steps(o: Orientation) -> u8 {
    match o {
        Orientation::Normal | Orientation::FlipH | Orientation::FlipV => 0,
        Orientation::Rotate180 => 2,
        Orientation::Rotate90 => 3,
        Orientation::Rotate270 => 1,
        Orientation::Transpose => 3,
        Orientation::Transverse => 1,
    }
}

/// The orientation written as `irot` steps (taken modulo 4) and an `imir` axis.
pub open spec fn spec_from_irot_imir(steps: u8, axis: Option<bool>) -> Orientation {
    let s = steps % 4;
    match axis {
        None => if s == 0 {
            Orientation::Normal
        } else if s == 2 {
            Orientation::Rotate180
        } else if s == 3 {
            Orientation::Rotate90
        } else {
            Orientation::Rotate270
        },
        Some(false) => if s == 0 {
            Orientation::FlipH
        } else if s == 3 {
            Orientation::Transpose
        } else if s == 1 {
            Orientation::Transverse
        } else {
            Orientation::Normal
        },
        Some(true) => if s == 0 {
            Orientation::FlipV
        } else {
            Orientation::Normal
        },
    }
}

impl Orientation {
    /// Map a raw EXIF Orientation value (1..=8) to an [`Orientation`]; anything
    /// out of range is treated as `Normal`.
    pub fn from_exif(v: u16) -> (r: Self)
        ensures
            r == orientation_of_exif(v),
    {
        match v {
            2 => Orientation::FlipH,
            3 => Orientation::Rotate180,
            4 => Orientation::FlipV,
            5 => Orientation::Transpose,
            6 => Orientation::Rotate90,
            7 => Orientation::Transverse,
            8 => Orientation::Rotate270,
            _ => Orientation::Normal,
        }
    }

    /// True when no orientation transform is needed (so neither `irot` nor
    /// `imir` is written).
    pub fn is_identity(self) -> (r: bool)
        ensures
            r == (spec_irot_steps(self) == 0 && spec_imir_axis(self).is_none()),
            r == (self == Orientation::Normal),
    {
        self.irot_steps() == 0 && self.imir_axis().is_none()
    }

    /// The `imir` axis when a mirror is part of the transform.
    pub fn imir_axis(self) -> (r: Option<bool>)
        ensures
            r == spec_imir_axis(self),
    {
        match self {
            Orientation::FlipH | Orientation::Transpose | Orientation::Transverse => Some(false),
            Orientation::FlipV => Some(true),
            _ => None,
        }
    }

    /// `irot` rotation in anticlockwise 90° steps (0..=3).
    pub fn irot_steps(self) -> (r: u8)
        ensures
            r == spec_irot_steps(self),
            r < 4,
    {
        match self {
            Orientation::Normal | Orientation::FlipH | Orientation::FlipV => 0,
            Orientation::Rotate180 => 2,
            Orientation::Rotate90 => 3,
            Orientation::Rotate270 => 1,
            Orientation::Transpose => 3,
            Orientation::Transverse => 1,
        }
    }

    /// Reconstruct an [`Orientation`] from the `irot` step count and the `imir`
    /// axis; combinations no orientation writes read as `Normal`.
    pub fn from_irot_imir(steps: u8, axis: Option<bool>) -> (r: Self)
        ensures
            r == spec_from_irot_imir(steps, axis),
    {
        let s = steps % 4;
        match axis {
            None => {
                if s == 0 {
                    Orientation::Normal
                } else if s == 2 {
                    Orientation::Rotate180
                } else if s == 3 {
                    Orientation::Rotate90
                } else {
                    Orientation::Rotate270
                }
            },
            Some(false) => {
                if s == 0 {
                    Orientation::FlipH
                } else if s == 3 {
                    Orientation::Transpose
                } else if s == 1 {
                    Orientation::Transverse
                } else {
                    Orientation::Normal
                }
            },
            Some(true) => {
                if s == 0 {
                    Orientation::FlipV
                } else {
                    Orientation::Normal
                }
            },
        }
    }
}

/// Reading back the `irot` steps and `imir` axis written for an orientation
/// gives that orientation.
pub proof fn lemma_irot_imir_round_trip(o: Orientation)
    ensures
        spec_from_irot_imir(spec_irot_steps(o), spec_imir_axis(o)) == o,
{
}

/// HDR content light level, written as a `ContentLightLevelBox` (`clli`): the
/// maximum content light level and maximum picture-average light level, in nits.
#[derive(Clone, Copy, Debug, PartialEq, Eq, Structural)]
pub struct ContentLightLevel {
    pub max_content_light_level: u16,
    pub max_pic_average_light_level: u16,
}

impl ContentLightLevel {
    pub fn new(max_cll: u16, max_fall: u16) -> (r: Self)
        ensures
            r.max_content_light_level == max_cll,
            r.max_pic_average_light_level == max_fall,
    {
        ContentLightLevel { max_content_light_level: max_cll, max_pic_average_light_level: max_fall }
    }

    /// The 4-byte `clli` payload: MaxCLL then MaxPALL, big-endian.
    pub fn clli_payload(&self) -> (r: [u8; 4])
        ensures
            r@ == seq![
                (self.max_content_light_level / 256) as u8,
                (self.max_content_light_level % 256) as u8,
                (self.max_pic_average_light_level / 256) as u8,
                (self.max_pic_average_light_level % 256) as u8,
            ],
    {
        let c = self.max_content_light_level;
        let f = self.max_pic_average_light_level;
        let r = [(c / 256) as u8, (c % 256) as u8, (f / 256) as u8, (f % 256) as u8];
        assert(r@ =~= seq![
            (c / 256) as u8,
            (c % 256) as u8,
            (f / 256) as u8,
            (f % 256) as u8,
        ]);
        r
    }
}

/// Bundle of image-level metadata written into the `meta` box.
#[derive(Clone, Debug, PartialEq, Eq)]
pub struct ImageMetadata {
    pub orientation: Orientation,
    pub content_light_level: Option<ContentLightLevel>,
    /// Raw Exif payload (the TIFF/Exif block, without the 4-byte
    /// `exif_tiff_header_offset` prefix; that prefix is added when writing).
    pub exif: Option<Vec<u8>>,
}

impl ImageMetadata {
    /// No metadata: upright, no light level, no Exif.
    pub fn new() -> (r: Self)
        ensures
            r.orientation == Orientation::Normal,
            r.content_light_level.is_none(),
            r.exif.is_none(),
    {
        ImageMetadata { orientation: Orientation::Normal, content_light_level: None, exif: None }
    }

    pub fn with_orientation(self, o: Orientation) -> (r: Self)
        ensures
            r.orientation == o,
            r.content_light_level == self.content_light_level,
            r.exif == self.exif,
    {
        let mut s = self;
        s.orientation = o;
        s
    }

    pub fn with_content_light_level(self, cll: ContentLightLevel) -> (r: Self)
        ensures
            r.orientation == self.orientation,
            r.content_light_level == Some(cll),
            r.exif == self.exif,
    {
        let mut s = self;
        s.content_light_level = Some(cll);
        s
    }

    pub fn with_exif(self, exif: Vec<u8>) -> (r: Self)
        ensures
            r.orientation == self.orientation,
            r.content_light_level == self.content_light_level,
            r.exif == Some(exif),
    {
        let mut s = self;
        s.exif = Some(exif);
        s
    }

    /// True when nothing here needs writing.
    pub fn is_empty(&self) -> (r: bool)
        ensures
            r == (self.orientation == Orientation::Normal && self.content_light_level.is_none()
                && self.exif.is_none()),
    {
        self.orientation.is_identity() && self.content_light_level.is_none() && self.exif.is_none()
    }
}

impl Default for ImageMetadata {
    fn default() -> (r: Self)
        ensures
            r.orientation == Orientation::Normal,
            r.content_light_level.is_none(),
            r.exif.is_none(),
    {
        ImageMetadata::new()
    }
}

impl Default for Orientation {
    fn default() -> (r: Self)
        ensures
            r == Orientation::Normal,
    {
        Orientation::Normal
    }
}

} // verus!
