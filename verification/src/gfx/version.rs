//! Packed Vulkan version numbers.

use vstd::prelude::*;

verus! {

/// A packed version: ten bits of major, ten of minor, twelve of patch.
pub open spec fn packed_version(major: int, minor: int, patch: int) -> int {
    major * 4194304 + minor * 4096 + patch
}

/// `vulkanalia::vk::make_version` packs three numbers that fit their fields.
pub assume_specification[ vulkanalia::vk::make_version ](
    major: u32,
    minor: u32,
    patch: u32,
) -> (version: u32)
    requires
        major < 1024,
        minor < 1024,
        patch < 4096,
    ensures
        version == packed_version(major as int, minor as int, patch as int),
;

/// `vulkanalia::vk::version_major` reads the major field.
pub assume_specification[ vulkanalia::vk::version_major ](version: u32) -> (major: u32)
    ensures
        major == version / 4194304,
;

/// `vulkanalia::vk::version_minor` reads the minor field.
pub assume_specification[ vulkanalia::vk::version_minor ](version: u32) -> (minor: u32)
    ensures
        minor == (version / 4096) % 1024,
;

/// The version is `major.minor` or later.
pub open spec fn at_least(version: u32, major: int, minor: int) -> bool {
    version / 4194304 > major || (version / 4194304 == major && (version / 4096) % 1024 >= minor)
}

/// Whether the version is 1.3 or later: the first with dynamic rendering.
pub fn has_dynamic_rendering(version: u32) -> (yes: bool)
    ensures
        yes <==> at_least(version, 1, 3),
{
    let major: u32 = vulkanalia::vk::version_major(version);
    major > 1 || (major == 1 && vulkanalia::vk::version_minor(version) >= 3)
}

/// A version counts as `major.minor` or later exactly if its number is no
/// smaller than that of `major.minor.0`.
pub proof fn law_versions_order_by_number(version: u32, major: int, minor: int)
    requires
        0 <= major < 1024,
        0 <= minor < 1024,
    ensures
        at_least(version, major, minor) <==> version >= packed_version(major, minor, 0),
{
}

/// The three parts of a version can be read back from its number: the patch from
/// the lowest 12 bits, the minor from the 10 above, the major from the rest.
pub proof fn law_version_parts_read_back(major: int, minor: int, patch: int)
    requires
        0 <= major < 1024,
        0 <= minor < 1024,
        0 <= patch < 4096,
    ensures
        packed_version(major, minor, patch) / 4194304 == major,
        (packed_version(major, minor, patch) / 4096) % 1024 == minor,
        packed_version(major, minor, patch) % 4096 == patch,
{
}

/// A version with parts `major.minor.patch` counts as `m.n` or later by its parts,
/// whatever its patch.
pub proof fn law_versions_order_by_parts(
    version: u32,
    major: int,
    minor: int,
    patch: int,
    m: int,
    n: int,
)
    requires
        0 <= major < 1024,
        0 <= minor < 1024,
        0 <= patch < 4096,
        0 <= m < 1024,
        0 <= n < 1024,
        version == packed_version(major, minor, patch),
    ensures
        at_least(version, m, n) <==> major > m || (major == m && minor >= n),
{
}

} // verus!
