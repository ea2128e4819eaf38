//! The image value, its color layouts and the error type.
use crate::decimal::{append_decimal, decimal_text};
use crate::tags::TagMap;
use vstd::prelude::*;
use vstd::string::StringExecFns;

verus! {

/// Pixel layout of an image.
#[derive(Debug, Clone, Copy, PartialEq, Eq, Hash, PartialOrd, Ord, Structural)]
pub enum TlgColorType {
    /// Grayscale 8-bit
    Grayscale8,
    /// BGR 8-bit
    Bgr24,
    /// BGRA 8-bit
    Bgra32,
}

impl TlgColorType {
    /// Number of bytes that one pixel occupies.
    pub open spec fn spec_channels(self) -> int {
        match self {
            TlgColorType::Grayscale8 => 1,
            TlgColorType::Bgr24 => 3,
            TlgColorType::Bgra32 => 4,
        }
    }

    /// Number of bytes that one pixel occupies.
    #[verifier::when_used_as_spec(spec_channels_u8)]
    pub fn channels(self) -> (n: u8)
        ensures
            n == self.spec_channels(),
    {
        match self {
            TlgColorType::Grayscale8 => 1,
            TlgColorType::Bgr24 => 3,
            TlgColorType::Bgra32 => 4,
        }
    }

    /// Number of bytes that one pixel occupies, as a byte.
    pub open spec fn spec_channels_u8(self) -> u8 {
        self.spec_channels() as u8
    }

    /// The color layout that a channel count stands for, if any.
    pub open spec fn spec_from_channels(n: u8) -> Option<TlgColorType> {
        if n == 1 {
            Some(TlgColorType::Grayscale8)
        } else if n == 3 {
            Some(TlgColorType::Bgr24)
        } else if n == 4 {
            Some(TlgColorType::Bgra32)
        } else {
            None
        }
    }

    /// The color layout that a channel count stands for, if any.
    pub fn from_channels(n: u8) -> (r: Option<TlgColorType>)
        ensures
            r == Self::spec_from_channels(n),
    {
        if n == 1 {
            Some(TlgColorType::Grayscale8)
        } else if n == 3 {
            Some(TlgColorType::Bgr24)
        } else if n == 4 {
            Some(TlgColorType::Bgra32)
        } else {
            None
        }
    }
}

} // verus!

verus! {

/// What can go wrong while reading or writing an image.
#[derive(Debug)]
pub enum TlgError {
    /// The byte source ended before a read was complete.
    Io,
    /// Invalid TLG format
    InvalidFormat,
    /// Unsupported color type
    UnsupportedColorType(u8),
    /// Unsupported compression method
    UnsupportedCompressedMethod(u8),
    /// A stream refers to data outside of a buffer.
    IndexOutOfRange,
    /// The image cannot be encoded.
    EncodeError(String),
    /// String type error
    Str(String),
}

/// A failure with its message as a sequence of characters.
pub enum Failure {
    Io,
    InvalidFormat,
    UnsupportedColorType(u8),
    UnsupportedCompressedMethod(u8),
    IndexOutOfRange,
    EncodeError(Seq<char>),
    Str(Seq<char>),
}

impl View for TlgError {
    type V = Failure;

    open spec fn view(&self) -> Failure {
        match self {
            TlgError::Io => Failure::Io,
            TlgError::InvalidFormat => Failure::InvalidFormat,
            TlgError::UnsupportedColorType(n) => Failure::UnsupportedColorType(*n),
            TlgError::UnsupportedCompressedMethod(n) => Failure::UnsupportedCompressedMethod(*n),
            TlgError::IndexOutOfRange => Failure::IndexOutOfRange,
            TlgError::EncodeError(s) => Failure::EncodeError(s@),
            TlgError::Str(s) => Failure::Str(s@),
        }
    }
}

} // verus!

verus! {

/// TLG Image
#[derive(Debug, Clone)]
pub struct Tlg {
    /// Tag dictionary
    pub tags: TagMap,
    /// TLG Version: 0=unknown, 5=v5, 6=v6
    pub version: u32,
    /// Image width
    pub width: u32,
    /// Image height
    pub height: u32,
    /// Color type
    pub color: TlgColorType,
    /// Image data
    pub data: Vec<u8>,
}

/// An image as mathematics.
pub struct TlgView {
    pub tags: Map<Seq<u8>, Seq<u8>>,
    pub version: u32,
    pub width: u32,
    pub height: u32,
    pub color: TlgColorType,
    pub data: Seq<u8>,
}

impl View for Tlg {
    type V = TlgView;

    open spec fn view(&self) -> TlgView {
        TlgView {
            tags: self.tags@,
            version: self.version,
            width: self.width,
            height: self.height,
            color: self.color,
            data: self.data@,
        }
    }
}

impl Tlg {
    /// No tag key occurs twice.
    pub open spec fn wf(&self) -> bool {
        self.tags.wf()
    }

    /// The image holds the bytes of its pixels and nothing behind them.
    pub open spec fn holds_pixels(&self) -> bool {
        self.data@.len() == self.width as int * self.height as int * self.color.spec_channels()
    }
}

/// What a decoder or encoder returns, with the value and the error as mathematics.
pub open spec fn same_outcome<T: View>(
    r: Result<T, TlgError>,
    model: Result<T::V, Failure>,
) -> bool {
    match model {
        Ok(v) => r matches Ok(t) && t@ == v,
        Err(f) => r matches Err(e) && e@ == f,
    }
}

} // verus!

verus! {

impl Failure {
    /// The text that describes the failure.
    pub open spec fn text(self) -> Seq<char> {
        match self {
            Failure::Io => "IO Error: failed to fill whole buffer"@,
            Failure::InvalidFormat => "Invalid TLG format"@,
            Failure::UnsupportedColorType(c) => "Unsupported color type: "@ + decimal_text(
                c as nat,
            ),
            Failure::UnsupportedCompressedMethod(m) => "Unsupported compressed method: "@
                + decimal_text(m as nat),
            Failure::IndexOutOfRange => "Index out of range"@,
            Failure::EncodeError(s) => s,
            Failure::Str(s) => s,
        }
    }
}

impl TlgError {
    /// The text that describes the error.
    pub fn message(&self) -> (s: String)
        ensures
            s@ == self@.text(),
    {
        match self {
            TlgError::Io => String::from_str("IO Error: failed to fill whole buffer"),
            TlgError::InvalidFormat => String::from_str("Invalid TLG format"),
            TlgError::UnsupportedColorType(c) => {
                let mut m = String::from_str("Unsupported color type: ");
                append_decimal(&mut m, *c as u128);
                m
            },
            TlgError::UnsupportedCompressedMethod(n) => {
                let mut m = String::from_str("Unsupported compressed method: ");
                append_decimal(&mut m, *n as u128);
                m
            },
            TlgError::IndexOutOfRange => String::from_str("Index out of range"),
            TlgError::EncodeError(s) => s.clone(),
            TlgError::Str(s) => s.clone(),
        }
    }
}

} // verus!

verus! {

impl From<String> for TlgError {
    /// The error that a message stands for.
    fn from(err: String) -> (r: Self) {
        TlgError::Str(err)
    }
}

impl vstd::std_specs::convert::FromSpecImpl<String> for TlgError {
    open spec fn obeys_from_spec() -> bool {
        true
    }

    open spec fn from_spec(err: String) -> TlgError {
        TlgError::Str(err)
    }
}

impl From<&String> for TlgError {
    /// The error that a message stands for.
    fn from(err: &String) -> (r: Self) {
        TlgError::Str(err.clone())
    }
}

impl vstd::std_specs::convert::FromSpecImpl<&String> for TlgError {
    open spec fn obeys_from_spec() -> bool {
        true
    }

    open spec fn from_spec(err: &String) -> TlgError {
        TlgError::Str(*err)
    }
}

impl From<&str> for TlgError {
    /// The error that a message stands for.
    fn from(err: &str) -> (r: Self)
        ensures
            r@ == Failure::Str(err@),
    {
        TlgError::Str(String::from_str(err))
    }
}

impl vstd::std_specs::convert::FromSpecImpl<&str> for TlgError {
    open spec fn obeys_from_spec() -> bool {
        false
    }

    open spec fn from_spec(err: &str) -> TlgError {
        TlgError::Str(choose|s: String| s@ == err@)
    }
}

} // verus!

