//! Color description: CICP code points (H.273) and the `nclx` / ICC colour
//! metadata written alongside the coded image.
use vstd::prelude::*;

verus! {

/// Color primaries (CICP `colorPrimaries`, H.273 Table 2).
#[derive(Clone, Copy, Debug, PartialEq, Eq, Structural)]
pub enum Primaries {
    /// BT.709 / sRGB.
    Bt709,
    /// Unspecified.
    Unspecified,
    /// BT.470 System M.
    Bt470M,
    /// BT.470 System B,G / BT.601-625.
    Bt470Bg,
    /// SMPTE 170M / BT.601-525.
    Bt601,
    /// SMPTE 240M.
    Smpte240,
    /// Generic film.
    GenericFilm,
    /// BT.2020 / BT.2100.
    Bt2020,
    /// CIE XYZ.
    Xyz,
    /// SMPTE RP 431-2 (DCI P3).
    Smpte431,
    /// SMPTE EG 432-1 (Display P3).
    Smpte432,
    /// EBU Tech 3213-E.
    Ebu3213,
}

/// CICP code of each `Primaries` value.
pub open spec fn primaries_code(x: Primaries) -> u16 {
    match x {
        Primaries::Bt709 => 1,
        Primaries::Unspecified => 2,
        Primaries::Bt470M => 4,
        Primaries::Bt470Bg => 5,
        Primaries::Bt601 => 6,
        Primaries::Smpte240 => 7,
        Primaries::GenericFilm => 8,
        Primaries::Bt2020 => 9,
        Primaries::Xyz => 10,
        Primaries::Smpte431 => 11,
        Primaries::Smpte432 => 12,
        Primaries::Ebu3213 => 22,
    }
}

/// The `Primaries` value of a CICP code; unknown codes map to `Unspecified`.
pub open spec fn primaries_of_code(v: u16) -> Primaries {
    if v == 1 {
        Primaries::Bt709
    }
     else if v == 4 {
        Primaries::Bt470M
    }
     else if v == 5 {
        Primaries::Bt470Bg
    }
     else if v == 6 {
        Primaries::Bt601
    }
     else if v == 7 {
        Primaries::Smpte240
    }
     else if v == 8 {
        Primaries::GenericFilm
    }
     else if v == 9 {
        Primaries::Bt2020
    }
     else if v == 10 {
        Primaries::Xyz
    }
     else if v == 11 {
        Primaries::Smpte431
    }
     else if v == 12 {
        Primaries::Smpte432
    }
     else if v == 22 {
        Primaries::Ebu3213
    } else {
        Primaries::Unspecified
    }
}

impl Primaries {
    /// Parse a CICP value; unknown codes map to `Unspecified`.
    pub fn from_u16(v: u16) -> (r: Self)
        ensures
            r == primaries_of_code(v),
    {
        match v {
            1 => Primaries::Bt709,
            4 => Primaries::Bt470M,
            5 => Primaries::Bt470Bg,
            6 => Primaries::Bt601,
            7 => Primaries::Smpte240,
            8 => Primaries::GenericFilm,
            9 => Primaries::Bt2020,
            10 => Primaries::Xyz,
            11 => Primaries::Smpte431,
            12 => Primaries::Smpte432,
            22 => Primaries::Ebu3213,
            _ => Primaries::Unspecified,
        }
    }

    /// The CICP code of this value.
    pub fn value(self) -> (r: u16)
        ensures
            r == primaries_code(self),
    {
        match self {
            Primaries::Bt709 => 1,
            Primaries::Unspecified => 2,
            Primaries::Bt470M => 4,
            Primaries::Bt470Bg => 5,
            Primaries::Bt601 => 6,
            Primaries::Smpte240 => 7,
            Primaries::GenericFilm => 8,
            Primaries::Bt2020 => 9,
            Primaries::Xyz => 10,
            Primaries::Smpte431 => 11,
            Primaries::Smpte432 => 12,
            Primaries::Ebu3213 => 22,
        }
    }
}

/// Parsing the code of a `Primaries` value gives the value back.
pub proof fn lemma_primaries_code_round_trip(x: Primaries)
    ensures
        primaries_of_code(primaries_code(x)) == x,
{
}

/// Transfer characteristics (CICP `TransferCharacteristics`, H.273 Table 3).
#[derive(Clone, Copy, Debug, PartialEq, Eq, Structural)]
pub enum TransferFunction {
    /// BT.709.
    Bt709,
    /// Unspecified.
    Unspecified,
    /// BT.470 System M (gamma 2.2).
    Bt470M,
    /// BT.470 System B,G (gamma 2.8).
    Bt470Bg,
    /// SMPTE 170M / BT.601.
    Bt601,
    /// SMPTE 240M.
    Smpte240,
    /// Linear.
    Linear,
    /// Logarithmic (100:1).
    Log100,
    /// Logarithmic (100*sqrt(10):1).
    Log100sqrt10,
    /// IEC 61966-2-4.
    Iec61966,
    /// BT.1361 extended.
    Bt1361,
    /// IEC 61966-2-1 (sRGB / sYCC).
    Srgb,
    /// BT.2020 (10-bit).
    Bt202010bit,
    /// BT.2020 (12-bit).
    Bt202012bit,
    /// SMPTE ST 2084 (PQ).
    Smpte2084,
    /// SMPTE ST 428-1.
    Smpte428,
    /// ARIB STD-B67 (HLG).
    Hlg,
}

/// CICP code of each `TransferFunction` value.
pub open spec fn transfer_code(x: TransferFunction) -> u16 {
    match x {
        TransferFunction::Bt709 => 1,
        TransferFunction::Unspecified => 2,
        TransferFunction::Bt470M => 4,
        TransferFunction::Bt470Bg => 5,
        TransferFunction::Bt601 => 6,
        TransferFunction::Smpte240 => 7,
        TransferFunction::Linear => 8,
        TransferFunction::Log100 => 9,
        TransferFunction::Log100sqrt10 => 10,
        TransferFunction::Iec61966 => 11,
        TransferFunction::Bt1361 => 12,
        TransferFunction::Srgb => 13,
        TransferFunction::Bt202010bit => 14,
        TransferFunction::Bt202012bit => 15,
        TransferFunction::Smpte2084 => 16,
        TransferFunction::Smpte428 => 17,
        TransferFunction::Hlg => 18,
    }
}

/// The `TransferFunction` value of a CICP code; unknown codes map to `Unspecified`.
pub open spec fn transfer_of_code(v: u16) -> TransferFunction {
    if v == 1 {
        TransferFunction::Bt709
    }
     else if v == 4 {
        TransferFunction::Bt470M
    }
     else if v == 5 {
        TransferFunction::Bt470Bg
    }
     else if v == 6 {
        TransferFunction::Bt601
    }
     else if v == 7 {
        TransferFunction::Smpte240
    }
     else if v == 8 {
        TransferFunction::Linear
    }
     else if v == 9 {
        TransferFunction::Log100
    }
     else if v == 10 {
        TransferFunction::Log100sqrt10
    }
     else if v == 11 {
        TransferFunction::Iec61966
    }
     else if v == 12 {
        TransferFunction::Bt1361
    }
     else if v == 13 {
        TransferFunction::Srgb
    }
     else if v == 14 {
        TransferFunction::Bt202010bit
    }
     else if v == 15 {
        TransferFunction::Bt202012bit
    }
     else if v == 16 {
        TransferFunction::Smpte2084
    }
     else if v == 17 {
        TransferFunction::Smpte428
    }
     else if v == 18 {
        TransferFunction::Hlg
    } else {
        TransferFunction::Unspecified
    }
}

impl TransferFunction {
    /// Parse a CICP value; unknown codes map to `Unspecified`.
    pub fn from_u16(v: u16) -> (r: Self)
        ensures
            r == transfer_of_code(v),
    {
        match v {
            1 => TransferFunction::Bt709,
            4 => TransferFunction::Bt470M,
            5 => TransferFunction::Bt470Bg,
            6 => TransferFunction::Bt601,
            7 => TransferFunction::Smpte240,
            8 => TransferFunction::Linear,
            9 => TransferFunction::Log100,
            10 => TransferFunction::Log100sqrt10,
            11 => TransferFunction::Iec61966,
            12 => TransferFunction::Bt1361,
            13 => TransferFunction::Srgb,
            14 => TransferFunction::Bt202010bit,
            15 => TransferFunction::Bt202012bit,
            16 => TransferFunction::Smpte2084,
            17 => TransferFunction::Smpte428,
            18 => TransferFunction::Hlg,
            _ => TransferFunction::Unspecified,
        }
    }

    /// The CICP code of this value.
    pub fn value(self) -> (r: u16)
        ensures
            r == transfer_code(self),
    {
        match self {
            TransferFunction::Bt709 => 1,
            TransferFunction::Unspecified => 2,
            TransferFunction::Bt470M => 4,
            TransferFunction::Bt470Bg => 5,
            TransferFunction::Bt601 => 6,
            TransferFunction::Smpte240 => 7,
            TransferFunction::Linear => 8,
            TransferFunction::Log100 => 9,
            TransferFunction::Log100sqrt10 => 10,
            TransferFunction::Iec61966 => 11,
            TransferFunction::Bt1361 => 12,
            TransferFunction::Srgb => 13,
            TransferFunction::Bt202010bit => 14,
            TransferFunction::Bt202012bit => 15,
            TransferFunction::Smpte2084 => 16,
            TransferFunction::Smpte428 => 17,
            TransferFunction::Hlg => 18,
        }
    }
}

/// Parsing the code of a `TransferFunction` value gives the value back.
pub proof fn lemma_transfer_code_round_trip(x: TransferFunction)
    ensures
        transfer_of_code(transfer_code(x)) == x,
{
}

/// Matrix coefficients (CICP `MatrixCoefficients`, H.273 Table 4).
#[derive(Clone, Copy, Debug, PartialEq, Eq, Structural)]
pub enum MatrixCoefficients {
    /// Identity (RGB / GBR).
    Identity,
    /// BT.709.
    Bt709,
    /// Unspecified.
    Unspecified,
    /// FCC.
    Fcc,
    /// BT.470BG / BT.601-625.
    Bt470Bg,
    /// SMPTE 170M / BT.601-525.
    Smpte170m,
    /// SMPTE 240M.
    Smpte240m,
    /// YCgCo.
    YCgCo,
    /// BT.2020 non-constant luminance.
    Bt2020Ncl,
    /// BT.2020 constant luminance.
    Bt2020Cl,
    /// SMPTE ST 2085.
    Smpte2085,
    /// Chromaticity-derived non-constant luminance.
    ChromaticityDerivedNcl,
    /// Chromaticity-derived constant luminance.
    ChromaticityDerivedCl,
    /// ICtCp.
    ICtCp,
    /// IPT-C2 (SMPTE IPT-PQ-C2).
    IPtC2,
    /// YCgCo-Re (reversible YCgCo-R, even bit-depth increase).
    YCgCoRe,
    /// YCgCo-Ro (reversible YCgCo-R, odd bit-depth increase).
    YCgCoRo,
}

/// CICP code of each `MatrixCoefficients` value.
pub open spec fn matrix_code(x: MatrixCoefficients) -> u16 {
    match x {
        MatrixCoefficients::Identity => 0,
        MatrixCoefficients::Bt709 => 1,
        MatrixCoefficients::Unspecified => 2,
        MatrixCoefficients::Fcc => 4,
        MatrixCoefficients::Bt470Bg => 5,
        MatrixCoefficients::Smpte170m => 6,
        MatrixCoefficients::Smpte240m => 7,
        MatrixCoefficients::YCgCo => 8,
        MatrixCoefficients::Bt2020Ncl => 9,
        MatrixCoefficients::Bt2020Cl => 10,
        MatrixCoefficients::Smpte2085 => 11,
        MatrixCoefficients::ChromaticityDerivedNcl => 12,
        MatrixCoefficients::ChromaticityDerivedCl => 13,
        MatrixCoefficients::ICtCp => 14,
        MatrixCoefficients::IPtC2 => 15,
        MatrixCoefficients::YCgCoRe => 16,
        MatrixCoefficients::YCgCoRo => 17,
    }
}

/// The `MatrixCoefficients` value of a CICP code; unknown codes map to `Unspecified`.
pub open spec fn matrix_of_code(v: u16) -> MatrixCoefficients {
    if v == 0 {
        MatrixCoefficients::Identity
    }
     else if v == 1 {
        MatrixCoefficients::Bt709
    }
     else if v == 4 {
        MatrixCoefficients::Fcc
    }
     else if v == 5 {
        MatrixCoefficients::Bt470Bg
    }
     else if v == 6 {
        MatrixCoefficients::Smpte170m
    }
     else if v == 7 {
        MatrixCoefficients::Smpte240m
    }
     else if v == 8 {
        MatrixCoefficients::YCgCo
    }
     else if v == 9 {
        MatrixCoefficients::Bt2020Ncl
    }
     else if v == 10 {
        MatrixCoefficients::Bt2020Cl
    }
     else if v == 11 {
        MatrixCoefficients::Smpte2085
    }
     else if v == 12 {
        MatrixCoefficients::ChromaticityDerivedNcl
    }
     else if v == 13 {
        MatrixCoefficients::ChromaticityDerivedCl
    }
     else if v == 14 {
        MatrixCoefficients::ICtCp
    }
     else if v == 15 {
        MatrixCoefficients::IPtC2
    }
     else if v == 16 {
        MatrixCoefficients::YCgCoRe
    }
     else if v == 17 {
        MatrixCoefficients::YCgCoRo
    } else {
        MatrixCoefficients::Unspecified
    }
}

impl MatrixCoefficients {
    /// Parse a CICP value; unknown codes map to `Unspecified`.
    pub fn from_u16(v: u16) -> (r: Self)
        ensures
            r == matrix_of_code(v),
    {
        match v {
            0 => MatrixCoefficients::Identity,
            1 => MatrixCoefficients::Bt709,
            4 => MatrixCoefficients::Fcc,
            5 => MatrixCoefficients::Bt470Bg,
            6 => MatrixCoefficients::Smpte170m,
            7 => MatrixCoefficients::Smpte240m,
            8 => MatrixCoefficients::YCgCo,
            9 => MatrixCoefficients::Bt2020Ncl,
            10 => MatrixCoefficients::Bt2020Cl,
            11 => MatrixCoefficients::Smpte2085,
            12 => MatrixCoefficients::ChromaticityDerivedNcl,
            13 => MatrixCoefficients::ChromaticityDerivedCl,
            14 => MatrixCoefficients::ICtCp,
            15 => MatrixCoefficients::IPtC2,
            16 => MatrixCoefficients::YCgCoRe,
            17 => MatrixCoefficients::YCgCoRo,
            _ => MatrixCoefficients::Unspecified,
        }
    }

    /// The CICP code of this value.
    pub fn value(self) -> (r: u16)
        ensures
            r == matrix_code(self),
    {
        match self {
            MatrixCoefficients::Identity => 0,
            MatrixCoefficients::Bt709 => 1,
            MatrixCoefficients::Unspecified => 2,
            MatrixCoefficients::Fcc => 4,
            MatrixCoefficients::Bt470Bg => 5,
            MatrixCoefficients::Smpte170m => 6,
            MatrixCoefficients::Smpte240m => 7,
            MatrixCoefficients::YCgCo => 8,
            MatrixCoefficients::Bt2020Ncl => 9,
            MatrixCoefficients::Bt2020Cl => 10,
            MatrixCoefficients::Smpte2085 => 11,
            MatrixCoefficients::ChromaticityDerivedNcl => 12,
            MatrixCoefficients::ChromaticityDerivedCl => 13,
            MatrixCoefficients::ICtCp => 14,
            MatrixCoefficients::IPtC2 => 15,
            MatrixCoefficients::YCgCoRe => 16,
            MatrixCoefficients::YCgCoRo => 17,
        }
    }
}

/// Parsing the code of a `MatrixCoefficients` value gives the value back.
pub proof fn lemma_matrix_code_round_trip(x: MatrixCoefficients)
    ensures
        matrix_of_code(matrix_code(x)) == x,
{
}

/// A CICP color description: primaries, transfer function, matrix coefficients
/// and the full-range flag, exactly as carried by an `nclx` `colr` box.
#[derive(Clone, Copy, Debug, PartialEq, Eq, Structural)]
pub struct Cicp {
    pub primaries: Primaries,
    pub transfer: TransferFunction,
    pub matrix: MatrixCoefficients,
    pub full_range: bool,
}

/// The `nclx` payload of a CICP description: `'nclx'`, the three codes
/// big-endian, then a byte whose top bit is the full-range flag.
pub open spec fn spec_nclx_payload(c: Cicp) -> Seq<u8> {
    let p = primaries_code(c.primaries);
    let t = transfer_code(c.transfer);
    let m = matrix_code(c.matrix);
    seq![
        110u8,
        99u8,
        108u8,
        120u8,
        (p / 256) as u8,
        (p % 256) as u8,
        (t / 256) as u8,
        (t % 256) as u8,
        (m / 256) as u8,
        (m % 256) as u8,
        if c.full_range {
            0x80u8
        } else {
            0u8
        },
    ]
}

/// The CICP description an `nclx` payload carries, if it is one.
pub open spec fn spec_from_nclx_payload(p: Seq<u8>) -> Option<Cicp> {
    if p.len() < 11 || p[0] != 110 || p[1] != 99 || p[2] != 108 || p[3] != 120 {
        None
    } else {
        Some(
            Cicp {
                primaries: primaries_of_code((p[4] as int * 256 + p[5] as int) as u16),
                transfer: transfer_of_code((p[6] as int * 256 + p[7] as int) as u16),
                matrix: matrix_of_code((p[8] as int * 256 + p[9] as int) as u16),
                full_range: p[10] >= 0x80,
            },
        )
    }
}

/// The big-endian bytes of a 16-bit value.
fn be_bytes(v: u16) -> (r: (u8, u8))
    ensures
        r.0 == v / 256,
        r.1 == v % 256,
{
    let hi = (v / 256) as u8;
    let lo = (v % 256) as u8;
    (hi, lo)
}

impl Cicp {
    /// The color space the encoder actually uses: BT.709 primaries, sRGB
    /// transfer, BT.601 (SMPTE 170M) matrix, full range. Matches the SPS VUI.
    pub fn garnetash_default() -> (c: Self)
        ensures
            c == (Cicp {
                primaries: Primaries::Bt709,
                transfer: TransferFunction::Srgb,
                matrix: MatrixCoefficients::Smpte170m,
                full_range: true,
            }),
    {
        Cicp {
            primaries: Primaries::Bt709,
            transfer: TransferFunction::Srgb,
            matrix: MatrixCoefficients::Smpte170m,
            full_range: true,
        }
    }

    /// sRGB: BT.709 primaries, sRGB transfer, BT.709 matrix, full range.
    pub fn srgb() -> (c: Self)
        ensures
            c == (Cicp {
                primaries: Primaries::Bt709,
                transfer: TransferFunction::Srgb,
                matrix: MatrixCoefficients::Bt709,
                full_range: true,
            }),
    {
        Cicp {
            primaries: Primaries::Bt709,
            transfer: TransferFunction::Srgb,
            matrix: MatrixCoefficients::Bt709,
            full_range: true,
        }
    }

    /// BT.709 video: BT.709 primaries/transfer/matrix, full range.
    pub fn bt709() -> (c: Self)
        ensures
            c == (Cicp {
                primaries: Primaries::Bt709,
                transfer: TransferFunction::Bt709,
                matrix: MatrixCoefficients::Bt709,
                full_range: true,
            }),
    {
        Cicp {
            primaries: Primaries::Bt709,
            transfer: TransferFunction::Bt709,
            matrix: MatrixCoefficients::Bt709,
            full_range: true,
        }
    }

    /// BT.2020 PQ (HDR10): BT.2020 primaries, PQ transfer, BT.2020 NCL matrix.
    pub fn bt2020_pq() -> (c: Self)
        ensures
            c == (Cicp {
                primaries: Primaries::Bt2020,
                transfer: TransferFunction::Smpte2084,
                matrix: MatrixCoefficients::Bt2020Ncl,
                full_range: true,
            }),
    {
        Cicp {
            primaries: Primaries::Bt2020,
            transfer: TransferFunction::Smpte2084,
            matrix: MatrixCoefficients::Bt2020Ncl,
            full_range: true,
        }
    }

    /// Unspecified colorimetry (CICP value 2 for primaries/transfer/matrix).
    pub fn unspecified() -> (c: Self)
        ensures
            c == (Cicp {
                primaries: Primaries::Unspecified,
                transfer: TransferFunction::Unspecified,
                matrix: MatrixCoefficients::Unspecified,
                full_range: true,
            }),
    {
        Cicp {
            primaries: Primaries::Unspecified,
            transfer: TransferFunction::Unspecified,
            matrix: MatrixCoefficients::Unspecified,
            full_range: true,
        }
    }

    /// The `nclx` payload for a `colr` box (without the box header).
    pub fn nclx_payload(&self) -> (p: Vec<u8>)
        ensures
            p@ == spec_nclx_payload(*self),
    {
        let mut p: Vec<u8> = Vec::new();
        p.push(110u8);
        p.push(99u8);
        p.push(108u8);
        p.push(120u8);
        let (a, b) = be_bytes(self.primaries.value());
        p.push(a);
        p.push(b);
        let (a, b) = be_bytes(self.transfer.value());
        p.push(a);
        p.push(b);
        let (a, b) = be_bytes(self.matrix.value());
        p.push(a);
        p.push(b);
        p.push(
            if self.full_range {
                0x80u8
            } else {
                0x00u8
            },
        );
        assert(p@ =~= spec_nclx_payload(*self));
        p
    }

    /// Parse an `nclx` `colr` payload: `'nclx'`, three big-endian CICP codes
    /// and a full-range flag byte. `None` if too short or not `nclx`.
    pub fn from_nclx_payload(p: &[u8]) -> (r: Option<Cicp>)
        ensures
            r == spec_from_nclx_payload(p@),
    {
        if p.len() < 11 || p[0] != 110u8 || p[1] != 99u8 || p[2] != 108u8 || p[3] != 120u8 {
            return None;
        }
        let v0 = (p[4] as u16) * 256 + p[5] as u16;
        let v1 = (p[6] as u16) * 256 + p[7] as u16;
        let v2 = (p[8] as u16) * 256 + p[9] as u16;
        Some(
            Cicp {
                primaries: Primaries::from_u16(v0),
                transfer: TransferFunction::from_u16(v1),
                matrix: MatrixCoefficients::from_u16(v2),
                full_range: p[10] >= 0x80u8,
            },
        )
    }
}

/// Parsing the `nclx` payload of a description gives the description back.
pub proof fn lemma_nclx_round_trip(c: Cicp)
    ensures
        spec_from_nclx_payload(spec_nclx_payload(c)) == Some(c),
{
    let p = spec_nclx_payload(c);
    let a = primaries_code(c.primaries) as int;
    let t = transfer_code(c.transfer) as int;
    let m = matrix_code(c.matrix) as int;
    assert((a / 256) * 256 + a % 256 == a);
    assert((t / 256) * 256 + t % 256 == t);
    assert((m / 256) * 256 + m % 256 == m);
    lemma_primaries_code_round_trip(c.primaries);
    lemma_transfer_code_round_trip(c.transfer);
    lemma_matrix_code_round_trip(c.matrix);
}

impl Default for Cicp {
    fn default() -> (c: Self)
        ensures
            c == (Cicp {
                primaries: Primaries::Bt709,
                transfer: TransferFunction::Srgb,
                matrix: MatrixCoefficients::Smpte170m,
                full_range: true,
            }),
    {
        Cicp::garnetash_default()
    }
}

/// How the output color space is described in the file: a CICP code-point set
/// (`nclx`) and/or an embedded ICC profile (`prof`). Both may be present.
#[derive(Clone, Debug, PartialEq, Eq)]
pub struct ColorMetadata {
    pub cicp: Option<Cicp>,
    pub icc: Option<Vec<u8>>,
}

impl Default for ColorMetadata {
    /// No CICP description and no ICC profile.
    fn default() -> (r: Self)
        ensures
            r.cicp.is_none(),
            r.icc.is_none(),
    {
        ColorMetadata { cicp: None, icc: None }
    }
}

impl ColorMetadata {
    /// A CICP-only description.
    pub fn cicp(c: Cicp) -> (r: Self)
        ensures
            r.cicp == Some(c),
            r.icc.is_none(),
    {
        ColorMetadata { cicp: Some(c), icc: None }
    }

    /// An ICC-profile-only description.
    pub fn icc(profile: Vec<u8>) -> (r: Self)
        ensures
            r.cicp.is_none(),
            r.icc == Some(profile),
    {
        ColorMetadata { cicp: None, icc: Some(profile) }
    }

    /// Both a CICP description and an ICC profile.
    pub fn cicp_and_icc(c: Cicp, profile: Vec<u8>) -> (r: Self)
        ensures
            r.cicp == Some(c),
            r.icc == Some(profile),
    {
        ColorMetadata { cicp: Some(c), icc: Some(profile) }
    }

    /// Replace the CICP description.
    pub fn with_cicp(self, c: Cicp) -> (r: Self)
        ensures
            r.cicp == Some(c),
            r.icc == self.icc,
    {
        let mut s = self;
        s.cicp = Some(c);
        s
    }

    /// Replace the ICC profile.
    pub fn with_icc(self, profile: Vec<u8>) -> (r: Self)
        ensures
            r.cicp == self.cicp,
            r.icc == Some(profile),
    {
        let mut s = self;
        s.icc = Some(profile);
        s
    }

    /// The CICP to write into the primary `nclx` `colr` box, falling back to
    /// the encoder's working color space when none was set.
    pub fn effective_cicp(&self) -> (c: Cicp)
        ensures
            self.cicp.is_some() ==> c == self.cicp.unwrap(),
            self.cicp.is_none() ==> c == (Cicp {
                primaries: Primaries::Bt709,
                transfer: TransferFunction::Srgb,
                matrix: MatrixCoefficients::Smpte170m,
                full_range: true,
            }),
    {
        match self.cicp {
            Some(c) => c,
            None => Cicp::garnetash_default(),
        }
    }

    /// True when both a CICP set and an ICC profile are present, so a second
    /// `colr` (`prof`) box is needed alongside the `nclx` one.
    pub fn has_secondary_colr(&self) -> (r: bool)
        ensures
            r == (self.cicp.is_some() && self.icc.is_some()),
    {
        self.cicp.is_some() && self.icc.is_some()
    }
}

} // verus!
