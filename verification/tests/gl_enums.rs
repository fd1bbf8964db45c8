use texture_atlas::gl_enums::{
    GLBufferTarget, GLBufferUsage, GLColor, GLShaderType, GLTextureMagFilter, GLTextureMinFilter, GLTextureParameter, GLTextureTarget, GLType, TextureParams,
};

#[test]
fn buffer_target_codes_are_the_driver_codes() {
    assert_eq!(GLBufferTarget::Array.code(), glow::ARRAY_BUFFER);
    assert_eq!(GLBufferTarget::AtomicCounter.code(), glow::ATOMIC_COUNTER_BUFFER);
    assert_eq!(GLBufferTarget::CopyRead.code(), glow::COPY_READ_BUFFER);
    assert_eq!(GLBufferTarget::CopyWrite.code(), glow::COPY_WRITE_BUFFER);
    assert_eq!(GLBufferTarget::DispatchIndirect.code(), glow::DISPATCH_INDIRECT_BUFFER);
    assert_eq!(GLBufferTarget::DrawIndirect.code(), glow::DRAW_INDIRECT_BUFFER);
    assert_eq!(GLBufferTarget::ElementArray.code(), glow::ELEMENT_ARRAY_BUFFER);
    assert_eq!(GLBufferTarget::PixelPack.code(), glow::PIXEL_PACK_BUFFER);
    assert_eq!(GLBufferTarget::PixelUnpack.code(), glow::PIXEL_UNPACK_BUFFER);
    assert_eq!(GLBufferTarget::Query.code(), glow::QUERY_BUFFER);
    assert_eq!(GLBufferTarget::ShederStorage.code(), glow::SHADER_STORAGE_BUFFER);
    assert_eq!(GLBufferTarget::Texture.code(), glow::TEXTURE_BUFFER);
    assert_eq!(GLBufferTarget::TransformFeedback.code(), glow::TRANSFORM_FEEDBACK_BUFFER);
    assert_eq!(GLBufferTarget::Uniform.code(), glow::UNIFORM_BUFFER);
}

#[test]
fn buffer_usage_codes_are_the_driver_codes() {
    assert_eq!(GLBufferUsage::StreamDraw.code(), glow::STREAM_DRAW);
    assert_eq!(GLBufferUsage::StreamRead.code(), glow::STREAM_READ);
    assert_eq!(GLBufferUsage::StreamCopy.code(), glow::STREAM_COPY);
    assert_eq!(GLBufferUsage::StaticDraw.code(), glow::STATIC_DRAW);
    assert_eq!(GLBufferUsage::StaticRead.code(), glow::STATIC_READ);
    assert_eq!(GLBufferUsage::StaticCopy.code(), glow::STATIC_COPY);
    assert_eq!(GLBufferUsage::DynamicDraw.code(), glow::DYNAMIC_DRAW);
    assert_eq!(GLBufferUsage::DynamicRead.code(), glow::DYNAMIC_READ);
    assert_eq!(GLBufferUsage::DynamicCopy.code(), glow::DYNAMIC_COPY);
}

#[test]
fn type_codes_are_the_driver_codes() {
    assert_eq!(GLType::Byte.code(), glow::BYTE);
    assert_eq!(GLType::UnsignedByte.code(), glow::UNSIGNED_BYTE);
    assert_eq!(GLType::Short.code(), glow::SHORT);
    assert_eq!(GLType::UnsignedShort.code(), glow::UNSIGNED_SHORT);
    assert_eq!(GLType::Int.code(), glow::INT);
    assert_eq!(GLType::UnsignedInt.code(), glow::UNSIGNED_INT);
    assert_eq!(GLType::HalfFloat.code(), glow::FLOAT);
    assert_eq!(GLType::Float.code(), glow::FLOAT);
    assert_eq!(GLType::Double.code(), glow::DOUBLE);
    assert_eq!(GLType::Fixed.code(), glow::FIXED);
}

#[test]
fn shader_type_codes_are_the_driver_codes() {
    assert_eq!(GLShaderType::Compute.code(), glow::COMPUTE_SHADER);
    assert_eq!(GLShaderType::Vertex.code(), glow::VERTEX_SHADER);
    assert_eq!(GLShaderType::TessControl.code(), glow::TESS_CONTROL_SHADER);
    assert_eq!(GLShaderType::TessEvaluation.code(), glow::TESS_EVALUATION_SHADER);
    assert_eq!(GLShaderType::Geometry.code(), glow::GEOMETRY_SHADER);
    assert_eq!(GLShaderType::Fragment.code(), glow::FRAGMENT_SHADER);
}

#[test]
fn texture_target_codes_are_the_driver_codes() {
    assert_eq!(GLTextureTarget::Texture1D.code(), glow::TEXTURE_1D);
    assert_eq!(GLTextureTarget::Texture2D.code(), glow::TEXTURE_2D);
    assert_eq!(GLTextureTarget::Texture3D.code(), glow::TEXTURE_3D);
}

#[test]
fn color_codes_are_the_driver_codes() {
    assert_eq!(GLColor::RGB.code(), glow::RGB);
    assert_eq!(GLColor::RGBA.code(), glow::RGBA);
    assert_eq!(GLColor::BGR.code(), glow::BGR);
    assert_eq!(GLColor::BGRA.code(), glow::BGRA);
}

#[test]
fn color_signed_codes_are_the_driver_codes() {
    assert_eq!(GLColor::RGB.signed_code(), glow::RGB as i32);
    assert_eq!(GLColor::RGBA.signed_code(), glow::RGBA as i32);
    assert_eq!(GLColor::BGR.signed_code(), glow::BGR as i32);
    assert_eq!(GLColor::BGRA.signed_code(), glow::BGRA as i32);
}

#[test]
fn texture_parameter_codes_are_the_driver_codes() {
    assert_eq!(GLTextureParameter::DSTMode.code(), glow::DEPTH_STENCIL_TEXTURE_MODE);
    assert_eq!(GLTextureParameter::BaseLevel.code(), glow::TEXTURE_BASE_LEVEL);
    assert_eq!(GLTextureParameter::CompareFunc.code(), glow::TEXTURE_COMPARE_FUNC);
    assert_eq!(GLTextureParameter::CompareMode.code(), glow::TEXTURE_COMPARE_MODE);
    assert_eq!(GLTextureParameter::LodBias.code(), glow::TEXTURE_LOD_BIAS);
    assert_eq!(GLTextureParameter::MinFilter.code(), glow::TEXTURE_MIN_FILTER);
    assert_eq!(GLTextureParameter::MagFilter.code(), glow::TEXTURE_MAG_FILTER);
    assert_eq!(GLTextureParameter::MinLod.code(), glow::TEXTURE_MIN_LOD);
    assert_eq!(GLTextureParameter::MaxLod.code(), glow::TEXTURE_MAX_LOD);
    assert_eq!(GLTextureParameter::MaxLevel.code(), glow::TEXTURE_MAX_LEVEL);
    assert_eq!(GLTextureParameter::SwizzleR.code(), glow::TEXTURE_SWIZZLE_R);
    assert_eq!(GLTextureParameter::SwizzleG.code(), glow::TEXTURE_SWIZZLE_G);
    assert_eq!(GLTextureParameter::SwizzleB.code(), glow::TEXTURE_SWIZZLE_G);
    assert_eq!(GLTextureParameter::SwizzleA.code(), glow::TEXTURE_SWIZZLE_A);
    assert_eq!(GLTextureParameter::WrapS.code(), glow::TEXTURE_WRAP_S);
    assert_eq!(GLTextureParameter::WrapT.code(), glow::TEXTURE_WRAP_T);
    assert_eq!(GLTextureParameter::WrapR.code(), glow::TEXTURE_WRAP_R);
    assert_eq!(GLTextureParameter::BorderColor.code(), glow::TEXTURE_BORDER_COLOR);
    assert_eq!(GLTextureParameter::SwizzleRGBA.code(), glow::TEXTURE_SWIZZLE_RGBA);
}

#[test]
fn texture_min_filter_codes_are_the_driver_codes() {
    assert_eq!(GLTextureMinFilter::Nearest.code(), glow::NEAREST);
    assert_eq!(GLTextureMinFilter::Linear.code(), glow::LINEAR);
    assert_eq!(GLTextureMinFilter::NN.code(), glow::NEAREST_MIPMAP_NEAREST);
    assert_eq!(GLTextureMinFilter::NL.code(), glow::NEAREST_MIPMAP_LINEAR);
    assert_eq!(GLTextureMinFilter::LN.code(), glow::LINEAR_MIPMAP_NEAREST);
    assert_eq!(GLTextureMinFilter::LL.code(), glow::LINEAR_MIPMAP_LINEAR);
}

#[test]
fn texture_min_filter_signed_codes_are_the_driver_codes() {
    assert_eq!(GLTextureMinFilter::Nearest.signed_code(), glow::NEAREST as i32);
    assert_eq!(GLTextureMinFilter::Linear.signed_code(), glow::LINEAR as i32);
    assert_eq!(GLTextureMinFilter::NN.signed_code(), glow::NEAREST_MIPMAP_NEAREST as i32);
    assert_eq!(GLTextureMinFilter::NL.signed_code(), glow::NEAREST_MIPMAP_LINEAR as i32);
    assert_eq!(GLTextureMinFilter::LN.signed_code(), glow::LINEAR_MIPMAP_NEAREST as i32);
    assert_eq!(GLTextureMinFilter::LL.signed_code(), glow::LINEAR_MIPMAP_LINEAR as i32);
}

#[test]
fn texture_mag_filter_codes_are_the_driver_codes() {
    assert_eq!(GLTextureMagFilter::Nearest.code(), glow::NEAREST);
    assert_eq!(GLTextureMagFilter::Linear.code(), glow::LINEAR);
}

#[test]
fn texture_mag_filter_signed_codes_are_the_driver_codes() {
    assert_eq!(GLTextureMagFilter::Nearest.signed_code(), glow::NEAREST as i32);
    assert_eq!(GLTextureMagFilter::Linear.signed_code(), glow::LINEAR as i32);
}

#[test]
fn known_codes_have_their_numbers() {
    assert_eq!(GLBufferTarget::Array.code(), 0x8892);
    assert_eq!(GLTextureTarget::Texture2D.code(), 0x0DE1);
    assert_eq!(GLColor::RGBA.code(), 0x1908);
    assert_eq!(GLColor::RGB.signed_code(), 0x1907);
    assert_eq!(GLTextureMagFilter::Linear.signed_code(), 0x2601);
}

#[test]
fn texture_params_hold_their_fields() {
    let params = TextureParams {
        internal_format: GLColor::RGBA.code(),
        format: GLColor::RGB.code(),
        data_type: GLType::UnsignedByte.code(),
        min_filter: Some(GLTextureMinFilter::Nearest.code()),
        mag_filter: None,
    };
    assert_eq!(params.internal_format, 0x1908);
    assert_eq!(params.format, 0x1907);
    assert_eq!(params.data_type, 0x1401);
    assert_eq!(params.min_filter, Some(0x2600));
    assert_eq!(params.mag_filter, None);
}
