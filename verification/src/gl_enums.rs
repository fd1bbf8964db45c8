//! Names for the OpenGL codes that the renderer hands to the driver, and the
//! code that each name stands for.

use vstd::prelude::*;

verus! {

/// Formats and filters that a texture is created or reset with.
pub struct TextureParams {
    pub internal_format: u32,
    pub format: u32,
    pub data_type: u32,
    pub min_filter: Option<u32>,
    pub mag_filter: Option<u32>,
}

/// What a buffer is bound as.
#[derive(Clone, Copy)]
pub enum GLBufferTarget {
    Array,
    AtomicCounter,
    CopyRead,
    CopyWrite,
    DispatchIndirect,
    DrawIndirect,
    ElementArray,
    PixelPack,
    PixelUnpack,
    Query,
    ShederStorage,
    Texture,
    TransformFeedback,
    Uniform,
}

/// The OpenGL code of each name.
pub open spec fn buffer_target_code(value: GLBufferTarget) -> u32 {
    match value {
        GLBufferTarget::Array => 0x8892,
        GLBufferTarget::AtomicCounter => 0x92C0,
        GLBufferTarget::CopyRead => 0x8F36,
        GLBufferTarget::CopyWrite => 0x8F37,
        GLBufferTarget::DispatchIndirect => 0x90EE,
        GLBufferTarget::DrawIndirect => 0x8F3F,
        GLBufferTarget::ElementArray => 0x8893,
        GLBufferTarget::PixelPack => 0x88EB,
        GLBufferTarget::PixelUnpack => 0x88EC,
        GLBufferTarget::Query => 0x9192,
        GLBufferTarget::ShederStorage => 0x90D2,
        GLBufferTarget::Texture => 0x8C2A,
        GLBufferTarget::TransformFeedback => 0x8C8E,
        GLBufferTarget::Uniform => 0x8A11,
    }
}

impl GLBufferTarget {
    /// The OpenGL code of the name.
    pub fn code(self) -> (code: u32)
        ensures
            code == buffer_target_code(self),
    {
        match self {
            GLBufferTarget::Array => 0x8892,
            GLBufferTarget::AtomicCounter => 0x92C0,
            GLBufferTarget::CopyRead => 0x8F36,
            GLBufferTarget::CopyWrite => 0x8F37,
            GLBufferTarget::DispatchIndirect => 0x90EE,
            GLBufferTarget::DrawIndirect => 0x8F3F,
            GLBufferTarget::ElementArray => 0x8893,
            GLBufferTarget::PixelPack => 0x88EB,
            GLBufferTarget::PixelUnpack => 0x88EC,
            GLBufferTarget::Query => 0x9192,
            GLBufferTarget::ShederStorage => 0x90D2,
            GLBufferTarget::Texture => 0x8C2A,
            GLBufferTarget::TransformFeedback => 0x8C8E,
            GLBufferTarget::Uniform => 0x8A11,
        }
    }
}

/// How often a buffer is written and what reads it.
#[derive(Clone, Copy)]
pub enum GLBufferUsage {
    StreamDraw,
    StreamRead,
    StreamCopy,
    StaticDraw,
    StaticRead,
    StaticCopy,
    DynamicDraw,
    DynamicRead,
    DynamicCopy,
}

/// The OpenGL code of each name.
pub open spec fn buffer_usage_code(value: GLBufferUsage) -> u32 {
    match value {
        GLBufferUsage::StreamDraw => 0x88E0,
        GLBufferUsage::StreamRead => 0x88E1,
        GLBufferUsage::StreamCopy => 0x88E2,
        GLBufferUsage::StaticDraw => 0x88E4,
        GLBufferUsage::StaticRead => 0x88E5,
        GLBufferUsage::StaticCopy => 0x88E6,
        GLBufferUsage::DynamicDraw => 0x88E8,
        GLBufferUsage::DynamicRead => 0x88E9,
        GLBufferUsage::DynamicCopy => 0x88EA,
    }
}

impl GLBufferUsage {
    /// The OpenGL code of the name.
    pub fn code(self) -> (code: u32)
        ensures
            code == buffer_usage_code(self),
    {
        match self {
            GLBufferUsage::StreamDraw => 0x88E0,
            GLBufferUsage::StreamRead => 0x88E1,
            GLBufferUsage::StreamCopy => 0x88E2,
            GLBufferUsage::StaticDraw => 0x88E4,
            GLBufferUsage::StaticRead => 0x88E5,
            GLBufferUsage::StaticCopy => 0x88E6,
            GLBufferUsage::DynamicDraw => 0x88E8,
            GLBufferUsage::DynamicRead => 0x88E9,
            GLBufferUsage::DynamicCopy => 0x88EA,
        }
    }
}

/// Type of the components of a vertex attribute.
#[derive(Clone, Copy)]
pub enum GLType {
    Byte,
    UnsignedByte,
    Short,
    UnsignedShort,
    Int,
    UnsignedInt,
    HalfFloat,
    Float,
    Double,
    Fixed,
}

/// The OpenGL code of each name.
pub open spec fn type_code(value: GLType) -> u32 {
    match value {
        GLType::Byte => 0x1400,
        GLType::UnsignedByte => 0x1401,
        GLType::Short => 0x1402,
        GLType::UnsignedShort => 0x1403,
        GLType::Int => 0x1404,
        GLType::UnsignedInt => 0x1405,
        GLType::HalfFloat => 0x1406,
        GLType::Float => 0x1406,
        GLType::Double => 0x140A,
        GLType::Fixed => 0x140C,
    }
}

impl GLType {
    /// The OpenGL code of the name.
    pub fn code(self) -> (code: u32)
        ensures
            code == type_code(self),
    {
        match self {
            GLType::Byte => 0x1400,
            GLType::UnsignedByte => 0x1401,
            GLType::Short => 0x1402,
            GLType::UnsignedShort => 0x1403,
            GLType::Int => 0x1404,
            GLType::UnsignedInt => 0x1405,
            GLType::HalfFloat => 0x1406,
            GLType::Float => 0x1406,
            GLType::Double => 0x140A,
            GLType::Fixed => 0x140C,
        }
    }
}

/// Stage of the pipeline that a shader runs in.
#[derive(Clone, Copy)]
pub enum GLShaderType {
    Compute,
    Vertex,
    TessControl,
    TessEvaluation,
    Geometry,
    Fragment,
}

/// The OpenGL code of each name.
pub open spec fn shader_type_code(value: GLShaderType) -> u32 {
    match value {
        GLShaderType::Compute => 0x91B9,
        GLShaderType::Vertex => 0x8B31,
        GLShaderType::TessControl => 0x8E88,
        GLShaderType::TessEvaluation => 0x8E87,
        GLShaderType::Geometry => 0x8DD9,
        GLShaderType::Fragment => 0x8B30,
    }
}

impl GLShaderType {
    /// The OpenGL code of the name.
    pub fn code(self) -> (code: u32)
        ensures
            code == shader_type_code(self),
    {
        match self {
            GLShaderType::Compute => 0x91B9,
            GLShaderType::Vertex => 0x8B31,
            GLShaderType::TessControl => 0x8E88,
            GLShaderType::TessEvaluation => 0x8E87,
            GLShaderType::Geometry => 0x8DD9,
            GLShaderType::Fragment => 0x8B30,
        }
    }
}

/// Dimensions of a texture.
#[derive(Clone, Copy)]
pub enum GLTextureTarget {
    Texture1D,
    Texture2D,
    Texture3D,
}

/// The OpenGL code of each name.
pub open spec fn texture_target_code(value: GLTextureTarget) -> u32 {
    match value {
        GLTextureTarget::Texture1D => 0x0DE0,
        GLTextureTarget::Texture2D => 0x0DE1,
        GLTextureTarget::Texture3D => 0x806F,
    }
}

impl GLTextureTarget {
    /// The OpenGL code of the name.
    pub fn code(self) -> (code: u32)
        ensures
            code == texture_target_code(self),
    {
        match self {
            GLTextureTarget::Texture1D => 0x0DE0,
            GLTextureTarget::Texture2D => 0x0DE1,
            GLTextureTarget::Texture3D => 0x806F,
        }
    }
}

/// Order and number of the channels of a pixel.
#[derive(Clone, Copy)]
pub enum GLColor {
    RGB,
    RGBA,
    BGR,
    BGRA,
}

/// The OpenGL code of each name.
pub open spec fn color_code(value: GLColor) -> u32 {
    match value {
        GLColor::RGB => 0x1907,
        GLColor::RGBA => 0x1908,
        GLColor::BGR => 0x80E0,
        GLColor::BGRA => 0x80E1,
    }
}

impl GLColor {
    /// The OpenGL code of the name.
    pub fn code(self) -> (code: u32)
        ensures
            code == color_code(self),
    {
        match self {
            GLColor::RGB => 0x1907,
            GLColor::RGBA => 0x1908,
            GLColor::BGR => 0x80E0,
            GLColor::BGRA => 0x80E1,
        }
    }

    /// The code as the signed number that some calls take.
    pub fn signed_code(self) -> (code: i32)
        ensures
            code == color_code(self),
    {
        self.code() as i32
    }
}

/// A setting of a texture.
#[derive(Clone, Copy)]
pub enum GLTextureParameter {
    DSTMode,
    BaseLevel,
    CompareFunc,
    CompareMode,
    LodBias,
    MinFilter,
    MagFilter,
    MinLod,
    MaxLod,
    MaxLevel,
    SwizzleR,
    SwizzleG,
    SwizzleB,
    SwizzleA,
    WrapS,
    WrapT,
    WrapR,
    BorderColor,
    SwizzleRGBA,
}

/// The OpenGL code of each name.
pub open spec fn texture_parameter_code(value: GLTextureParameter) -> u32 {
    match value {
        GLTextureParameter::DSTMode => 0x90EA,
        GLTextureParameter::BaseLevel => 0x813C,
        GLTextureParameter::CompareFunc => 0x884D,
        GLTextureParameter::CompareMode => 0x884C,
        GLTextureParameter::LodBias => 0x8501,
        GLTextureParameter::MinFilter => 0x2801,
        GLTextureParameter::MagFilter => 0x2800,
        GLTextureParameter::MinLod => 0x813A,
        GLTextureParameter::MaxLod => 0x813B,
        GLTextureParameter::MaxLevel => 0x813D,
        GLTextureParameter::SwizzleR => 0x8E42,
        GLTextureParameter::SwizzleG => 0x8E43,
        GLTextureParameter::SwizzleB => 0x8E43,
        GLTextureParameter::SwizzleA => 0x8E45,
        GLTextureParameter::WrapS => 0x2802,
        GLTextureParameter::WrapT => 0x2803,
        GLTextureParameter::WrapR => 0x8072,
        GLTextureParameter::BorderColor => 0x1004,
        GLTextureParameter::SwizzleRGBA => 0x8E46,
    }
}

impl GLTextureParameter {
    /// The OpenGL code of the name.
    pub fn code(self) -> (code: u32)
        ensures
            code == texture_parameter_code(self),
    {
        match self {
            GLTextureParameter::DSTMode => 0x90EA,
            GLTextureParameter::BaseLevel => 0x813C,
            GLTextureParameter::CompareFunc => 0x884D,
            GLTextureParameter::CompareMode => 0x884C,
            GLTextureParameter::LodBias => 0x8501,
            GLTextureParameter::MinFilter => 0x2801,
            GLTextureParameter::MagFilter => 0x2800,
            GLTextureParameter::MinLod => 0x813A,
            GLTextureParameter::MaxLod => 0x813B,
            GLTextureParameter::MaxLevel => 0x813D,
            GLTextureParameter::SwizzleR => 0x8E42,
            GLTextureParameter::SwizzleG => 0x8E43,
            GLTextureParameter::SwizzleB => 0x8E43,
            GLTextureParameter::SwizzleA => 0x8E45,
            GLTextureParameter::WrapS => 0x2802,
            GLTextureParameter::WrapT => 0x2803,
            GLTextureParameter::WrapR => 0x8072,
            GLTextureParameter::BorderColor => 0x1004,
            GLTextureParameter::SwizzleRGBA => 0x8E46,
        }
    }
}

/// How a texture is sampled where it is drawn smaller than it is.
#[derive(Clone, Copy)]
pub enum GLTextureMinFilter {
    Nearest,
    Linear,
    NN,
    NL,
    LN,
    LL,
}

/// The OpenGL code of each name.
pub open spec fn min_filter_code(value: GLTextureMinFilter) -> u32 {
    match value {
        GLTextureMinFilter::Nearest => 0x2600,
        GLTextureMinFilter::Linear => 0x2601,
        GLTextureMinFilter::NN => 0x2700,
        GLTextureMinFilter::NL => 0x2702,
        GLTextureMinFilter::LN => 0x2701,
        GLTextureMinFilter::LL => 0x2703,
    }
}

impl GLTextureMinFilter {
    /// The OpenGL code of the name.
    pub fn code(self) -> (code: u32)
        ensures
            code == min_filter_code(self),
    {
        match self {
            GLTextureMinFilter::Nearest => 0x2600,
            GLTextureMinFilter::Linear => 0x2601,
            GLTextureMinFilter::NN => 0x2700,
            GLTextureMinFilter::NL => 0x2702,
            GLTextureMinFilter::LN => 0x2701,
            GLTextureMinFilter::LL => 0x2703,
        }
    }

    /// The code as the signed number that some calls take.
    pub fn signed_code(self) -> (code: i32)
        ensures
            code == min_filter_code(self),
    {
        self.code() as i32
    }
}

/// How a texture is sampled where it is drawn larger than it is.
#[derive(Clone, Copy)]
pub enum GLTextureMagFilter {
    Nearest,
    Linear,
}

/// The OpenGL code of each name.
pub open spec fn mag_filter_code(value: GLTextureMagFilter) -> u32 {
    match value {
        GLTextureMagFilter::Nearest => 0x2600,
        GLTextureMagFilter::Linear => 0x2601,
    }
}

impl GLTextureMagFilter {
    /// The OpenGL code of the name.
    pub fn code(self) -> (code: u32)
        ensures
            code == mag_filter_code(self),
    {
        match self {
            GLTextureMagFilter::Nearest => 0x2600,
            GLTextureMagFilter::Linear => 0x2601,
        }
    }

    /// The code as the signed number that some calls take.
    pub fn signed_code(self) -> (code: i32)
        ensures
            code == mag_filter_code(self),
    {
        self.code() as i32
    }
}

} // verus!
