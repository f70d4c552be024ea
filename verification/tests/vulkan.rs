use exey_engine::gfx::buffer::write_fits;
use exey_engine::gfx::device::{
    find_queue_families, pick_physical_device, supports_extensions, DeviceCandidate, DeviceError,
    QueueFamily, QueueFamilyIndices, DISCRETE_GPU, INTEGRATED_GPU, QUEUE_GRAPHICS, VIRTUAL_GPU,
};
use exey_engine::gfx::frame::{
    acquire_outcome, present_outcome, record_clear, record_frame, upload_pixels, Access,
    AcquireResult, FramesInFlight, ImageLayout, RecordStep, Stage, OUT_OF_DATE, SUBOPTIMAL,
};
use exey_engine::gfx::instance::{
    message_level, plan_instance, InstanceExtension, LogLevel, SEVERITY_ERROR, SEVERITY_INFO,
    SEVERITY_WARNING,
};
use exey_engine::gfx::memory::find_memory_type;
use exey_engine::gfx::swapchain::{
    pick_extent, pick_format, pick_image_count, pick_present_mode, plan_swapchain, Extent,
    NothingOffered, SurfaceCaps, SurfaceFormat, B8G8R8A8_SRGB, PRESENT_FIFO, PRESENT_MAILBOX,
    SRGB_NONLINEAR,
};
use exey_engine::gfx::texture::{apply_luma_key, KeyCounts, TextureError};
use exey_engine::gfx::version::has_dynamic_rendering;
use exey_engine::gfx::Texture;
use vulkanalia::vk;

const V1_3: u32 = vk::make_version(1, 3, 0);

fn gpu(device_type: i32) -> DeviceCandidate {
    DeviceCandidate {
        queues: Some(QueueFamilyIndices { graphics_present: 0 }),
        has_extensions: true,
        api_version: V1_3,
        device_type,
    }
}

fn caps() -> SurfaceCaps {
    SurfaceCaps {
        min_image_count: 2,
        max_image_count: 8,
        current_extent: Extent { width: 640, height: 480 },
        min_image_extent: Extent { width: 100, height: 50 },
        max_image_extent: Extent { width: 2000, height: 1000 },
    }
}

#[test]
fn raw_numbers_are_those_of_vulkan() {
    assert_eq!(B8G8R8A8_SRGB, vk::Format::B8G8R8A8_SRGB.as_raw());
    assert_eq!(SRGB_NONLINEAR, vk::ColorSpaceKHR::SRGB_NONLINEAR.as_raw());
    assert_eq!(PRESENT_MAILBOX, vk::PresentModeKHR::MAILBOX.as_raw());
    assert_eq!(PRESENT_FIFO, vk::PresentModeKHR::FIFO.as_raw());
    assert_eq!(DISCRETE_GPU, vk::PhysicalDeviceType::DISCRETE_GPU.as_raw());
    assert_eq!(INTEGRATED_GPU, vk::PhysicalDeviceType::INTEGRATED_GPU.as_raw());
    assert_eq!(VIRTUAL_GPU, vk::PhysicalDeviceType::VIRTUAL_GPU.as_raw());
    assert_eq!(QUEUE_GRAPHICS, vk::QueueFlags::GRAPHICS.bits());
    assert_eq!(SUBOPTIMAL, vk::SuccessCode::SUBOPTIMAL_KHR.as_raw());
    assert_eq!(OUT_OF_DATE, vk::ErrorCode::OUT_OF_DATE_KHR.as_raw());
    assert_eq!(SEVERITY_ERROR, vk::DebugUtilsMessageSeverityFlagsEXT::ERROR.bits());
    assert_eq!(SEVERITY_WARNING, vk::DebugUtilsMessageSeverityFlagsEXT::WARNING.bits());
    assert_eq!(SEVERITY_INFO, vk::DebugUtilsMessageSeverityFlagsEXT::INFO.bits());
}

#[test]
fn dynamic_rendering_needs_1_3() {
    assert!(!has_dynamic_rendering(vk::make_version(1, 0, 0)));
    assert!(!has_dynamic_rendering(vk::make_version(1, 2, 300)));
    assert!(has_dynamic_rendering(vk::make_version(1, 3, 0)));
    assert!(has_dynamic_rendering(vk::make_version(1, 4, 1)));
    assert!(has_dynamic_rendering(vk::make_version(2, 0, 0)));
    assert!(!has_dynamic_rendering(0));
    assert!(!has_dynamic_rendering(vk::make_version(0, 9, 0)));
}

#[test]
fn memory_types_are_searched_in_order() {
    let properties = [0b001, 0b110, 0b111];
    assert_eq!(find_memory_type(0b111, &properties, 0b110), Some(1));
    assert_eq!(find_memory_type(0b101, &properties, 0b110), Some(2));
    assert_eq!(find_memory_type(0b111, &properties, 0), Some(0));
    assert_eq!(find_memory_type(0b001, &properties, 0b110), None);
    assert_eq!(find_memory_type(u32::MAX, &[], 0), None);
    assert_eq!(find_memory_type(1 << 31, &[7; 32], 7), Some(31));
}

#[test]
fn the_first_family_that_draws_and_presents() {
    let f = |flags: u32, presents: bool| QueueFamily { flags, presents };
    assert_eq!(
        find_queue_families(&[f(6, true), f(1, false), f(7, true), f(1, true)]),
        Some(QueueFamilyIndices { graphics_present: 2 })
    );
    assert_eq!(find_queue_families(&[f(6, true), f(1, false)]), None);
}

#[test]
fn all_extensions_are_needed() {
    let names = |list: &[&str]| list.iter().map(|s| s.to_string()).collect::<Vec<String>>();
    assert!(supports_extensions(&names(&["a", "b"]), &names(&["b", "a"])));
    assert!(!supports_extensions(&names(&["a"]), &names(&["a", "b"])));
    assert!(supports_extensions(&names(&[]), &names(&[])));
    assert!(!supports_extensions(&names(&[]), &names(&["a"])));
}

#[test]
fn discrete_gpus_are_preferred() {
    let picked = |list: &[DeviceCandidate]| pick_physical_device(list).map(|(i, _)| i);
    assert_eq!(picked(&[gpu(INTEGRATED_GPU), gpu(DISCRETE_GPU), gpu(DISCRETE_GPU)]), Ok(1));
    assert_eq!(picked(&[gpu(4), gpu(VIRTUAL_GPU), gpu(INTEGRATED_GPU)]), Ok(2));
    assert_eq!(picked(&[gpu(4), gpu(0)]), Ok(0));
    let mut old = gpu(DISCRETE_GPU);
    old.api_version = vk::make_version(1, 2, 0);
    let mut bare = gpu(DISCRETE_GPU);
    bare.has_extensions = false;
    let mut blind = gpu(DISCRETE_GPU);
    blind.queues = None;
    assert_eq!(picked(&[old, bare, blind, gpu(4)]), Ok(3));
    assert_eq!(picked(&[old, bare, blind]), Err(DeviceError::NoSuitableDevice));
    assert_eq!(picked(&[]), Err(DeviceError::NoDevices));
    let mut other = gpu(DISCRETE_GPU);
    other.queues = Some(QueueFamilyIndices { graphics_present: 5 });
    assert_eq!(
        pick_physical_device(&[other]),
        Ok((0, QueueFamilyIndices { graphics_present: 5 }))
    );
}

#[test]
fn formats_and_modes_have_fallbacks() {
    let odd = SurfaceFormat { format: 1, color_space: 2 };
    let good = SurfaceFormat { format: B8G8R8A8_SRGB, color_space: SRGB_NONLINEAR };
    let half = SurfaceFormat { format: B8G8R8A8_SRGB, color_space: 9 };
    assert_eq!(pick_format(&[odd, half, good]), good);
    assert_eq!(pick_format(&[odd, half]), odd);
    assert_eq!(pick_present_mode(&[0, PRESENT_MAILBOX]), PRESENT_MAILBOX);
    assert_eq!(pick_present_mode(&[0]), PRESENT_FIFO);
    assert_eq!(pick_present_mode(&[]), PRESENT_FIFO);
}

#[test]
fn the_extent_follows_the_surface_or_the_window() {
    let mut c = caps();
    assert_eq!(pick_extent(&c, 1, 1), Extent { width: 640, height: 480 });
    c.current_extent.width = u32::MAX;
    assert_eq!(pick_extent(&c, 300, 200), Extent { width: 300, height: 200 });
    assert_eq!(pick_extent(&c, 1, 5000), Extent { width: 100, height: 1000 });
}

#[test]
fn one_image_more_than_needed() {
    let mut c = caps();
    assert_eq!(pick_image_count(&c), 3);
    c.max_image_count = 2;
    assert_eq!(pick_image_count(&c), 2);
    c.max_image_count = 0;
    assert_eq!(pick_image_count(&c), 3);
}

#[test]
fn a_swapchain_is_planned() {
    let good = SurfaceFormat { format: B8G8R8A8_SRGB, color_space: SRGB_NONLINEAR };
    let plan = plan_swapchain(&caps(), &[good], &[PRESENT_FIFO], 10, 10).unwrap();
    assert_eq!(plan.format, good);
    assert_eq!(plan.present_mode, PRESENT_FIFO);
    assert_eq!(plan.extent, Extent { width: 640, height: 480 });
    assert_eq!(plan.image_count, 3);
    assert_eq!(plan_swapchain(&caps(), &[], &[PRESENT_FIFO], 10, 10), Err(NothingOffered));
    assert_eq!(plan_swapchain(&caps(), &[good], &[], 10, 10), Err(NothingOffered));
}

#[test]
fn the_instance_is_planned() {
    let plan = plan_instance(false, false, Some(V1_3), true);
    assert!(plan.extensions.is_empty());
    assert!(!plan.portability && !plan.validation_layer && !plan.messenger && !plan.layer_missing);
    assert_eq!(plan.api_version, V1_3);

    let plan = plan_instance(true, true, Some(vk::make_version(1, 3, 216)), true);
    assert_eq!(
        plan.extensions,
        vec![
            InstanceExtension::DebugUtils,
            InstanceExtension::PortabilityEnumeration,
            InstanceExtension::GetPhysicalDeviceProperties2,
        ]
    );
    assert!(plan.portability && plan.validation_layer && plan.messenger);

    let plan = plan_instance(true, true, Some(vk::make_version(1, 3, 215)), false);
    assert_eq!(plan.extensions, vec![InstanceExtension::DebugUtils]);
    assert!(!plan.portability && !plan.validation_layer && plan.layer_missing);

    assert!(!plan_instance(false, true, None, false).portability);
    assert!(!plan_instance(false, false, Some(u32::MAX), false).portability);
}

#[test]
fn severities_become_levels() {
    assert_eq!(message_level(SEVERITY_ERROR), LogLevel::Error);
    assert_eq!(message_level(SEVERITY_WARNING), LogLevel::Warn);
    assert_eq!(message_level(SEVERITY_INFO), LogLevel::Info);
    assert_eq!(message_level(1), LogLevel::Debug);
}

#[test]
fn stale_swapchains_are_noticed() {
    assert_eq!(acquire_outcome(Ok((3, 0))), Ok(AcquireResult::Acquired(3)));
    assert_eq!(acquire_outcome(Ok((3, SUBOPTIMAL))), Ok(AcquireResult::Recreate));
    assert_eq!(acquire_outcome(Err(OUT_OF_DATE)), Ok(AcquireResult::Recreate));
    assert_eq!(acquire_outcome(Err(-4)), Err(-4));
    assert_eq!(present_outcome(Ok(0)), Ok(false));
    assert_eq!(present_outcome(Ok(SUBOPTIMAL)), Ok(true));
    assert_eq!(present_outcome(Err(OUT_OF_DATE)), Ok(true));
    assert_eq!(present_outcome(Err(-4)), Err(-4));
}

#[test]
fn frames_in_flight_take_turns() {
    let mut f = FramesInFlight::new();
    let mut turns = Vec::new();
    for _ in 0..4 {
        turns.push(f.current());
        f.advance();
    }
    assert_eq!(turns, vec![0, 1, 0, 1]);
}

#[test]
fn a_frame_goes_from_undefined_to_present() {
    let steps = record_frame();
    assert_eq!(steps.len(), 5);
    assert_eq!(steps[2], RecordStep::Draw);
    match (steps[0], steps[4]) {
        (RecordStep::Barrier(a), RecordStep::Barrier(b)) => {
            assert_eq!(a.old_layout, ImageLayout::Undefined);
            assert_eq!(a.new_layout, b.old_layout);
            assert_eq!(b.new_layout, ImageLayout::PresentSource);
            assert_eq!((a.src_access, a.dst_access), (Access::Nothing, Access::ColorAttachmentWrite));
            assert_eq!((b.src_stage, b.dst_stage), (Stage::ColorAttachmentOutput, Stage::BottomOfPipe));
        }
        _ => panic!("a frame begins and ends with a barrier"),
    }
    let clear = record_clear();
    assert_eq!(clear.len(), 4);
    assert_eq!(clear[1..3], [RecordStep::BeginRendering, RecordStep::EndRendering]);
}

#[test]
fn an_upload_ends_readable() {
    let steps = upload_pixels();
    assert_eq!(steps.len(), 3);
    assert_eq!(steps[1], RecordStep::CopyPixels);
    match steps[2] {
        RecordStep::Barrier(b) => {
            assert_eq!(b.old_layout, ImageLayout::TransferDestination);
            assert_eq!(b.new_layout, ImageLayout::ShaderReadOnly);
            assert_eq!((b.src_stage, b.dst_stage), (Stage::Transfer, Stage::FragmentShader));
            assert_eq!((b.src_access, b.dst_access), (Access::TransferWrite, Access::ShaderRead));
        }
        _ => panic!("an upload ends with a barrier"),
    }
}

#[test]
fn writes_stay_within_buffers() {
    assert!(write_fits(10, 6, 4));
    assert!(!write_fits(10, 7, 4));
    assert!(!write_fits(10, u64::MAX, 1));
    assert!(write_fits(0, 0, 0));
}

#[test]
fn textures_have_four_bytes_per_pixel() {
    let t = Texture::from_rgba(2, 1, vec![1, 2, 3, 4, 5, 6, 7, 8]).ok().unwrap();
    assert_eq!((t.width, t.height, t.rgba.len()), (2, 1, 8));
    assert_eq!(Texture::from_rgba(2, 2, vec![0; 8]).err(), Some(TextureError::WrongLength));
    assert_eq!(
        Texture::from_rgba(u32::MAX, u32::MAX, vec![]).err(),
        Some(TextureError::WrongLength)
    );
    assert!(Texture::from_rgba(0, 7, vec![]).is_ok());
}

fn png(width: u32, height: u32, rgba: Vec<u8>) -> Vec<u8> {
    let img = image::RgbaImage::from_raw(width, height, rgba).unwrap();
    let mut out = std::io::Cursor::new(Vec::new());
    img.write_to(&mut out, image::ImageFormat::Png).unwrap();
    out.into_inner()
}

#[test]
fn png_files_are_decoded() {
    let pixels = vec![255, 0, 0, 255, 0, 255, 0, 128, 9, 8, 7, 0, 1, 2, 3, 4];
    let t = Texture::from_png_bytes(&png(2, 2, pixels.clone())).ok().unwrap();
    assert_eq!((t.width, t.height), (2, 2));
    assert_eq!(t.rgba, pixels);
}

#[test]
fn grey_png_files_become_rgba() {
    let img = image::GrayImage::from_raw(2, 1, vec![10, 200]).unwrap();
    let mut out = std::io::Cursor::new(Vec::new());
    img.write_to(&mut out, image::ImageFormat::Png).unwrap();
    let t = Texture::from_png_bytes(&out.into_inner()).ok().unwrap();
    assert_eq!(t.rgba, vec![10, 10, 10, 255, 200, 200, 200, 255]);
}

#[test]
fn garbage_is_not_a_texture() {
    assert_eq!(Texture::from_png_bytes(b"not an image").err(), Some(TextureError::Undecodable));
    assert_eq!(Texture::from_png_bytes(&[]).err(), Some(TextureError::Undecodable));
}

#[test]
fn dark_pixels_are_keyed_out() {
    // Grey levels are their own luma.
    let mut rgba = Vec::new();
    for level in [0u8, 8, 9, 12, 15, 16, 255] {
        rgba.extend_from_slice(&[level, level, level, 77]);
    }
    let counts = apply_luma_key(&mut rgba);
    let alphas: Vec<u8> = rgba.chunks(4).map(|p| p[3]).collect();
    assert_eq!(alphas, vec![0, 0, 31, 127, 223, 255, 255]);
    assert_eq!(counts, KeyCounts { transparent: 2, ramp: 3 });
    // Colours are left alone, and keying again changes nothing.
    assert_eq!(rgba[8..11], [9, 9, 9]);
    let once = rgba.clone();
    apply_luma_key(&mut rgba);
    assert_eq!(rgba, once);
}

#[test]
fn luma_weighs_green_most() {
    let mut rgba = vec![30, 0, 0, 0, 0, 30, 0, 0, 0, 0, 30, 0];
    apply_luma_key(&mut rgba);
    // 8.97, 17.61 and 3.42, rounded down.
    assert_eq!((rgba[3], rgba[7], rgba[11]), (0, 255, 0));
}

#[test]
fn a_part_of_a_pixel_is_left_alone() {
    let mut rgba = vec![0, 0, 0, 9, 5, 6, 7];
    let counts = apply_luma_key(&mut rgba);
    assert_eq!(rgba, vec![0, 0, 0, 0, 5, 6, 7]);
    assert_eq!(counts, KeyCounts { transparent: 1, ramp: 0 });
}

#[test]
fn keyed_textures_check_their_size() {
    let (counts, texture) = Texture::from_image_with_luma_key(1, 2, vec![0, 0, 0, 255, 99, 99, 99, 0]);
    assert_eq!(counts, KeyCounts { transparent: 1, ramp: 0 });
    assert_eq!(texture.ok().unwrap().rgba, vec![0, 0, 0, 0, 99, 99, 99, 255]);
    let (_, wrong) = Texture::from_image_with_luma_key(3, 3, vec![0; 8]);
    assert_eq!(wrong.err(), Some(TextureError::WrongLength));
}

#[test]
fn limits_matter_only_where_they_are_used() {
    let mut c = caps();
    // The surface fixes the extent, so nobody looks at its limits.
    c.min_image_extent = Extent { width: 9, height: 9 };
    c.max_image_extent = Extent { width: 1, height: 1 };
    assert_eq!(pick_extent(&c, 5, 5), c.current_extent);
    c.min_image_count = u32::MAX;
    assert_eq!(pick_extent(&c, 5, 5), c.current_extent);
    assert_eq!(plan_swapchain(&c, &[], &[], 5, 5), Err(NothingOffered));
}
