//! What the Vulkan instance is created with.

use vstd::prelude::*;

use crate::gfx::version::packed_version;

verus! {

/// Extensions beyond those that the window system asks for.
#[derive(Clone, Copy, Debug, PartialEq, Eq, Structural)]
pub enum InstanceExtension {
    /// `VK_EXT_debug_utils`
    DebugUtils,
    /// `VK_KHR_portability_enumeration`
    PortabilityEnumeration,
    /// `VK_KHR_get_physical_device_properties2`
    GetPhysicalDeviceProperties2,
}

/// How the instance is created.
pub struct InstancePlan {
    /// Extra extensions, in order.
    pub extensions: Vec<InstanceExtension>,
    /// Whether non-conformant implementations are enumerated.
    pub portability: bool,
    /// Whether the validation layer is switched on.
    pub validation_layer: bool,
    /// Whether validation messages are received.
    pub messenger: bool,
    /// Whether validation was asked for but the layer is missing.
    pub layer_missing: bool,
    /// Vulkan version that is asked for.
    pub api_version: u32,
}

/// Portability enumeration is needed: on macOS, from 1.3.216 on. A loader that
/// does not tell its version has 1.0.0.
pub open spec fn portability_needed(macos: bool, loader_version: Option<u32>) -> bool {
    macos && match loader_version {
        Some(v) => v >= packed_version(1, 3, 216),
        None => false,
    }
}

/// The extra extensions.
pub open spec fn extra_extensions(validation: bool, portability: bool) -> Seq<InstanceExtension> {
    (if validation {
        seq![InstanceExtension::DebugUtils]
    } else {
        Seq::empty()
    }) + (if portability {
        seq![
            InstanceExtension::PortabilityEnumeration,
            InstanceExtension::GetPhysicalDeviceProperties2,
        ]
    } else {
        Seq::empty()
    })
}

/// Plans the instance.
pub fn plan_instance(
    validation: bool,
    macos: bool,
    loader_version: Option<u32>,
    layer_available: bool,
) -> (plan: InstancePlan)
    ensures
        plan.portability == portability_needed(macos, loader_version),
        plan.extensions@ == extra_extensions(validation, plan.portability),
        plan.validation_layer == (validation && layer_available),
        plan.messenger == (validation && layer_available),
        plan.layer_missing == (validation && !layer_available),
        plan.api_version == packed_version(1, 3, 0),
{
    let mut extensions: Vec<InstanceExtension> = Vec::new();
    if validation {
        extensions.push(InstanceExtension::DebugUtils);
    }
    let version: u32 = match loader_version {
        Some(v) => v,
        None => vulkanalia::vk::make_version(1, 0, 0),
    };
    let threshold: u32 = vulkanalia::vk::make_version(1, 3, 216);
    let portability: bool = macos && version >= threshold;
    if portability {
        extensions.push(InstanceExtension::PortabilityEnumeration);
        extensions.push(InstanceExtension::GetPhysicalDeviceProperties2);
    }
    assert(extensions@ =~= extra_extensions(validation, portability));
    InstancePlan {
        extensions,
        portability,
        validation_layer: validation && layer_available,
        messenger: validation && layer_available,
        layer_missing: validation && !layer_available,
        api_version: vulkanalia::vk::make_version(1, 3, 0),
    }
}

/// `VK_DEBUG_UTILS_MESSAGE_SEVERITY_INFO_BIT_EXT`
pub const SEVERITY_INFO: u32 = 16;

/// `VK_DEBUG_UTILS_MESSAGE_SEVERITY_WARNING_BIT_EXT`
pub const SEVERITY_WARNING: u32 = 256;

/// `VK_DEBUG_UTILS_MESSAGE_SEVERITY_ERROR_BIT_EXT`
pub const SEVERITY_ERROR: u32 = 4096;

/// Where a validation message is logged.
#[derive(Clone, Copy, Debug, PartialEq, Eq, Structural)]
pub enum LogLevel {
    Error,
    Warn,
    Info,
    Debug,
}

/// The level for a severity.
pub open spec fn level_for(severity: u32) -> LogLevel {
    if severity == SEVERITY_ERROR {
        LogLevel::Error
    } else if severity == SEVERITY_WARNING {
        LogLevel::Warn
    } else if severity == SEVERITY_INFO {
        LogLevel::Info
    } else {
        LogLevel::Debug
    }
}

pub fn message_level(severity: u32) -> (level: LogLevel)
    ensures
        level == level_for(severity),
{
    if severity == SEVERITY_ERROR {
        LogLevel::Error
    } else if severity == SEVERITY_WARNING {
        LogLevel::Warn
    } else if severity == SEVERITY_INFO {
        LogLevel::Info
    } else {
        LogLevel::Debug
    }
}

/// Portability enumeration goes with macOS and a loader of at least 1.3.216,
/// whose number is 4206808. A loader without a number is too old.
pub proof fn law_portability_goes_by_loader_version(loader_version: Option<u32>)
    ensures
        !portability_needed(false, loader_version),
        portability_needed(true, loader_version) <==> loader_version is Some && loader_version->0
            >= 4206808,
{
}

/// An extension is asked for exactly where what needs it is on, and none twice.
/// Debug messages come first.
pub proof fn law_extensions_go_with_their_use(validation: bool, portability: bool)
    ensures
        ({
            let extensions = extra_extensions(validation, portability);
            let n: int = if validation {
                1
            } else {
                0
            };
            &&& extensions.len() == n + if portability {
                2int
            } else {
                0int
            }
            &&& validation ==> extensions[0] is DebugUtils
            &&& portability ==> extensions[n] is PortabilityEnumeration && extensions[n + 1]
                is GetPhysicalDeviceProperties2
        }),
{
}

/// Severities 4096, 256 and 16 are errors, warnings and notes; anything else is
/// for debugging.
pub proof fn law_severity_numbers(severity: u32)
    ensures
        level_for(severity) is Error <==> severity == 4096,
        level_for(severity) is Warn <==> severity == 256,
        level_for(severity) is Info <==> severity == 16,
        level_for(severity) is Debug <==> severity != 4096 && severity != 256 && severity != 16,
{
}

} // verus!
