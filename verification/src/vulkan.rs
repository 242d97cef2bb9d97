//! Vulkan result codes and version numbers.
use vstd::prelude::*;

verus! {

/// A raw Vulkan result code: zero or positive for success, negative for an
/// error.
pub type VkResult = i32;

/// Packs a Vulkan API version: variant in bits 29.., major in bits 22..,
/// minor in bits 12.., patch in the low bits.
pub open spec fn api_version(variant: u32, major: u32, minor: u32, patch: u32) -> u32 {
    (variant << 29u32) | (major << 22u32) | (minor << 12u32) | patch
}

pub fn make_api_version(variant: u32, major: u32, minor: u32, patch: u32) -> (r: u32)
    ensures
        r == api_version(variant, major, minor, patch),
{
    (variant << 29u32) | (major << 22u32) | (minor << 12u32) | patch
}

// Major core versions (variant 0, patch 0).
pub const VK_API_VERSION_1_0: u32 = 4194304;

pub const VK_API_VERSION_1_1: u32 = 4198400;

pub const VK_API_VERSION_1_2: u32 = 4202496;

pub const VK_API_VERSION_1_3: u32 = 4206592;

pub const VK_API_VERSION_1_4: u32 = 4210688;

/// The pre-variant version packing: major in bits 22.., minor in bits 12..,
/// patch in the low bits.
#[allow(non_snake_case)]
pub fn VK_MAKE_VERSION(major: u32, minor: u32, patch: u32) -> (r: u32)
    ensures
        r == api_version(0, major, minor, patch),
{
    proof {
        assert((0u32 << 29u32) == 0u32) by (bit_vector);
        assert(((0u32 << 29u32) | (major << 22u32)) == (major << 22u32)) by (bit_vector);
    }
    (major << 22u32) | (minor << 12u32) | (patch)
}

/// Versions whose fields fit their bit ranges pack as a sum, and each field
/// can be read back from the packed number.
pub proof fn lemma_api_version_fields(variant: u32, major: u32, minor: u32, patch: u32)
    requires
        variant < 8,
        major < 128,
        minor < 1024,
        patch < 4096,
    ensures
        api_version(variant, major, minor, patch) as int == variant * 0x2000_0000 + major * 0x40_0000 + minor
            * 0x1000 + patch,
        api_version(variant, major, minor, patch) >> 29u32 == variant,
        (api_version(variant, major, minor, patch) >> 22u32) & 0x7fu32 == major,
        (api_version(variant, major, minor, patch) >> 12u32) & 0x3ffu32 == minor,
        api_version(variant, major, minor, patch) & 0xfffu32 == patch,
{
    assert(((variant << 29u32) | (major << 22u32) | (minor << 12u32) | patch) as int == variant * 0x2000_0000
        + major * 0x40_0000 + minor * 0x1000 + patch) by (bit_vector)
        requires
            variant < 8,
            major < 128,
            minor < 1024,
            patch < 4096,
    ;
    assert(((variant << 29u32) | (major << 22u32) | (minor << 12u32) | patch) >> 29u32 == variant) by (bit_vector)
        requires
            variant < 8,
            major < 128,
            minor < 1024,
            patch < 4096,
    ;
    assert((((variant << 29u32) | (major << 22u32) | (minor << 12u32) | patch) >> 22u32) & 0x7fu32 == major)
        by (bit_vector)
        requires
            variant < 8,
            major < 128,
            minor < 1024,
            patch < 4096,
    ;
    assert((((variant << 29u32) | (major << 22u32) | (minor << 12u32) | patch) >> 12u32) & 0x3ffu32 == minor)
        by (bit_vector)
        requires
            variant < 8,
            major < 128,
            minor < 1024,
            patch < 4096,
    ;
    assert(((variant << 29u32) | (major << 22u32) | (minor << 12u32) | patch) & 0xfffu32 == patch) by (bit_vector)
        requires
            variant < 8,
            major < 128,
            minor < 1024,
            patch < 4096,
    ;
}

/// The core version constants are the packed versions they name.
pub proof fn lemma_core_versions()
    ensures
        VK_API_VERSION_1_0 == api_version(0, 1, 0, 0),
        VK_API_VERSION_1_1 == api_version(0, 1, 1, 0),
        VK_API_VERSION_1_2 == api_version(0, 1, 2, 0),
        VK_API_VERSION_1_3 == api_version(0, 1, 3, 0),
        VK_API_VERSION_1_4 == api_version(0, 1, 4, 0),
{
    lemma_api_version_fields(0, 1, 0, 0);
    lemma_api_version_fields(0, 1, 1, 0);
    lemma_api_version_fields(0, 1, 2, 0);
    lemma_api_version_fields(0, 1, 3, 0);
    lemma_api_version_fields(0, 1, 4, 0);
}

/// The errors a Vulkan call can report.
#[derive(Clone, Copy, Debug, PartialEq, Eq, Structural)]
pub enum VkError {
    // --- Core 1.0 errors ---
    OutOfHostMemory,
    OutOfDeviceMemory,
    InitializationFailed,
    DeviceLost,
    MemoryMapFailed,
    LayerNotPresent,
    ExtensionNotPresent,
    FeatureNotPresent,
    IncompatibleDriver,
    TooManyObjects,
    FormatNotSupported,
    FragmentedPool,
    Unknown,
    // --- Core 1.1 errors ---
    OutOfPoolMemory,
    InvalidExternalHandle,
    // --- Core 1.2 errors ---
    Fragmentation,
    InvalidOpaqueCaptureAddress,
    // --- Core 1.0 validation (EXT) ---
    ValidationFailed,
    // --- Surface/swapchain (KHR) ---
    SurfaceLost,
    NativeWindowInUse,
    OutOfDate,
    IncompatibleDisplay,
    // --- Validation/pipeline cache ---
    InvalidPipelineCacheData,
    NoPipelineMatch,
    // --- Full screen exclusive (EXT) ---
    FullScreenExclusiveModeLost,
    // --- Privileges ---
    NotPermitted,
    // --- Space (KHR) ---
    NotEnoughSpace,
    // --- Video (KHR) ---
    VideoProfileOperationNotSupported,
    VideoProfileFormatNotSupported,
    VideoProfileCodecNotSupported,
    VideoStdVersionNotSupported,
    InvalidVideoStdParameters,
    // --- Shader binary (EXT) ---
    IncompatibleShaderBinary,
    // --- Catch-all for unknown raw codes ---
    UnrecognizedCode(i32),
}

/// The error a negative result code stands for.
pub open spec fn vk_error_of(code: i32) -> VkError {
    match code {
        -1 => VkError::OutOfHostMemory,
        -2 => VkError::OutOfDeviceMemory,
        -3 => VkError::InitializationFailed,
        -4 => VkError::DeviceLost,
        -5 => VkError::MemoryMapFailed,
        -6 => VkError::LayerNotPresent,
        -7 => VkError::ExtensionNotPresent,
        -8 => VkError::FeatureNotPresent,
        -9 => VkError::IncompatibleDriver,
        -10 => VkError::TooManyObjects,
        -11 => VkError::FormatNotSupported,
        -12 => VkError::FragmentedPool,
        -13 => VkError::Unknown,
        -1000069000 => VkError::OutOfPoolMemory,
        -1000072003 => VkError::InvalidExternalHandle,
        -1000161000 => VkError::Fragmentation,
        -1000257000 => VkError::InvalidOpaqueCaptureAddress,
        -1000011001 => VkError::ValidationFailed,
        -1000000000 => VkError::SurfaceLost,
        -1000000001 => VkError::NativeWindowInUse,
        -1000001004 => VkError::OutOfDate,
        -1000003001 => VkError::IncompatibleDisplay,
        -1000012000 => VkError::InvalidPipelineCacheData,
        -1000012001 => VkError::NoPipelineMatch,
        -1000255000 => VkError::FullScreenExclusiveModeLost,
        -1000174001 => VkError::NotPermitted,
        -1000483000 => VkError::NotEnoughSpace,
        -1000023000 => VkError::VideoProfileOperationNotSupported,
        -1000023001 => VkError::VideoProfileFormatNotSupported,
        -1000023004 => VkError::VideoProfileCodecNotSupported,
        -1000023005 => VkError::VideoStdVersionNotSupported,
        -1000299000 => VkError::InvalidVideoStdParameters,
        -1000482000 => VkError::IncompatibleShaderBinary,
        _ => VkError::UnrecognizedCode(code),
    }
}

/// The result code Vulkan reports each error with, as its headers define
/// them.
pub open spec fn vk_result_code(e: VkError) -> i32 {
    match e {
        VkError::OutOfHostMemory => -1i32,
        VkError::OutOfDeviceMemory => -2i32,
        VkError::InitializationFailed => -3i32,
        VkError::DeviceLost => -4i32,
        VkError::MemoryMapFailed => -5i32,
        VkError::LayerNotPresent => -6i32,
        VkError::ExtensionNotPresent => -7i32,
        VkError::FeatureNotPresent => -8i32,
        VkError::IncompatibleDriver => -9i32,
        VkError::TooManyObjects => -10i32,
        VkError::FormatNotSupported => -11i32,
        VkError::FragmentedPool => -12i32,
        VkError::Unknown => -13i32,
        VkError::OutOfPoolMemory => -1000069000i32,
        VkError::InvalidExternalHandle => -1000072003i32,
        VkError::Fragmentation => -1000161000i32,
        VkError::InvalidOpaqueCaptureAddress => -1000257000i32,
        VkError::ValidationFailed => -1000011001i32,
        VkError::SurfaceLost => -1000000000i32,
        VkError::NativeWindowInUse => -1000000001i32,
        VkError::OutOfDate => -1000001004i32,
        VkError::IncompatibleDisplay => -1000003001i32,
        VkError::InvalidPipelineCacheData => -1000012000i32,
        VkError::NoPipelineMatch => -1000012001i32,
        VkError::FullScreenExclusiveModeLost => -1000255000i32,
        VkError::NotPermitted => -1000174001i32,
        VkError::NotEnoughSpace => -1000483000i32,
        VkError::VideoProfileOperationNotSupported => -1000023000i32,
        VkError::VideoProfileFormatNotSupported => -1000023001i32,
        VkError::VideoProfileCodecNotSupported => -1000023004i32,
        VkError::VideoStdVersionNotSupported => -1000023005i32,
        VkError::InvalidVideoStdParameters => -1000299000i32,
        VkError::IncompatibleShaderBinary => -1000482000i32,
        VkError::UnrecognizedCode(code) => code,
    }
}

/// Every result code turns into the error Vulkan reports with that code, so
/// reading the code back from the error gives the code again: distinct codes
/// never become the same error. The named errors come from negative codes.
pub proof fn lemma_error_code_round_trip(code: i32)
    ensures
        vk_result_code(vk_error_of(code)) == code,
        !(vk_error_of(code) is UnrecognizedCode) ==> code < 0,
{
}

/// Distinct failure codes are distinct errors.
pub proof fn lemma_error_of_injective(c1: i32, c2: i32)
    requires
        c1 != c2,
    ensures
        vk_error_of(c1) != vk_error_of(c2),
{
    lemma_error_code_round_trip(c1);
    lemma_error_code_round_trip(c2);
}

impl VkError {
    /// Zero and positive codes are success or informational and come back
    /// unchanged; a negative code becomes its error.
    pub fn from_raw(result: VkResult) -> (r: Result<VkResult, VkError>)
        ensures
            result >= 0 ==> r == Ok::<VkResult, VkError>(result),
            result < 0 ==> r == Err::<VkResult, VkError>(vk_error_of(result)),
    {
        // Positive/zero values are success or informational, not errors
        if result >= 0 {
            return Ok(result);
        }
        Err(
            match result {
            -1 => VkError::OutOfHostMemory,
            -2 => VkError::OutOfDeviceMemory,
            -3 => VkError::InitializationFailed,
            -4 => VkError::DeviceLost,
            -5 => VkError::MemoryMapFailed,
            -6 => VkError::LayerNotPresent,
            -7 => VkError::ExtensionNotPresent,
            -8 => VkError::FeatureNotPresent,
            -9 => VkError::IncompatibleDriver,
            -10 => VkError::TooManyObjects,
            -11 => VkError::FormatNotSupported,
            -12 => VkError::FragmentedPool,
            -13 => VkError::Unknown,
            -1000069000 => VkError::OutOfPoolMemory,
            -1000072003 => VkError::InvalidExternalHandle,
            -1000161000 => VkError::Fragmentation,
            -1000257000 => VkError::InvalidOpaqueCaptureAddress,
            -1000011001 => VkError::ValidationFailed,
            -1000000000 => VkError::SurfaceLost,
            -1000000001 => VkError::NativeWindowInUse,
            -1000001004 => VkError::OutOfDate,
            -1000003001 => VkError::IncompatibleDisplay,
            -1000012000 => VkError::InvalidPipelineCacheData,
            -1000012001 => VkError::NoPipelineMatch,
            -1000255000 => VkError::FullScreenExclusiveModeLost,
            -1000174001 => VkError::NotPermitted,
            -1000483000 => VkError::NotEnoughSpace,
            -1000023000 => VkError::VideoProfileOperationNotSupported,
            -1000023001 => VkError::VideoProfileFormatNotSupported,
            -1000023004 => VkError::VideoProfileCodecNotSupported,
            -1000023005 => VkError::VideoStdVersionNotSupported,
            -1000299000 => VkError::InvalidVideoStdParameters,
            -1000482000 => VkError::IncompatibleShaderBinary,
            code => VkError::UnrecognizedCode(code),
            },
        )
    }
}

/// Succeeds for success codes and reports the error of a failure code.
pub fn check_vk(error: VkResult) -> (r: Result<(), VkError>)
    ensures
        error >= 0 ==> r == Ok::<(), VkError>(()),
        error < 0 ==> r == Err::<(), VkError>(vk_error_of(error)),
{
    match VkError::from_raw(error) {
        Ok(_) => Ok(()),
        Err(err) => Err(err),
    }
}

} // verus!
