use brane::graphics::{
    check_instance_extensions, choose_swap_extent, frame_semaphore_index, graphics_queue_family,
    instance_extensions, on_swapchain_error, plan_queues, present_queue_family, select_physical_device,
    swap_image_count, transfer_queue_family, Extent2D, GraphicsCreateError, QueueRequest, SwapchainFailure,
};
use brane::vulkan::{
    check_vk, make_api_version, VkError, VK_API_VERSION_1_0, VK_API_VERSION_1_3, VK_MAKE_VERSION,
};

#[test]
fn api_versions_pack_fields() {
    assert_eq!(make_api_version(0, 1, 3, 0), 4206592);
    assert_eq!(make_api_version(0, 1, 3, 0), VK_API_VERSION_1_3);
    assert_eq!(make_api_version(0, 1, 0, 0), VK_API_VERSION_1_0);
    assert_eq!(make_api_version(1, 2, 3, 4), (1 << 29) | (2 << 22) | (3 << 12) | 4);
    assert_eq!(VK_MAKE_VERSION(0, 1, 0), 4096);
    assert_eq!(VK_MAKE_VERSION(1, 2, 3), (1 << 22) + (2 << 12) + 3);
}

#[test]
fn from_raw_maps_codes() {
    assert_eq!(VkError::from_raw(0), Ok(0));
    assert_eq!(VkError::from_raw(5), Ok(5));
    assert_eq!(VkError::from_raw(-1), Err(VkError::OutOfHostMemory));
    assert_eq!(VkError::from_raw(-13), Err(VkError::Unknown));
    assert_eq!(VkError::from_raw(-1000001004), Err(VkError::OutOfDate));
    assert_eq!(VkError::from_raw(-1000482000), Err(VkError::IncompatibleShaderBinary));
    assert_eq!(VkError::from_raw(-14), Err(VkError::UnrecognizedCode(-14)));
}

#[test]
fn check_vk_passes_success() {
    assert_eq!(check_vk(0), Ok(()));
    assert_eq!(check_vk(-4), Err(VkError::DeviceLost));
}

fn names(list: &[&str]) -> Vec<String> {
    list.iter().map(|s| s.to_string()).collect()
}

#[test]
fn extensions_requested_by_build() {
    let available = names(&["VK_EXT_debug_utils", "VK_LAYER_KHRONOS_validation"]);
    assert_eq!(
        instance_extensions(&available, true, false),
        names(&["VK_LAYER_KHRONOS_validation", "VK_EXT_debug_utils"])
    );
    assert_eq!(instance_extensions(&names(&[]), true, true), names(&[
        "VK_EXT_debug_utils",
        "VK_KHR_surface",
        "VK_KHR_win32_surface"
    ]));
    assert!(instance_extensions(&available, false, false).is_empty());
}

#[test]
fn missing_extension_is_reported() {
    let available = names(&["a", "b"]);
    assert!(check_instance_extensions(&available, &names(&["b", "a"])).is_ok());
    match check_instance_extensions(&available, &names(&["a", "c", "d"])) {
        Err(GraphicsCreateError::RequredInstanceExtensionWasNotFound(name)) => assert_eq!(name, "c"),
        other => panic!("unexpected {:?}", other),
    }
}

#[test]
fn device_selection_prefers_first_discrete_gpu() {
    assert_eq!(select_physical_device(&vec![1, 2, 2]).ok(), Some(1));
    assert_eq!(select_physical_device(&vec![3, 1]).ok(), Some(0));
    assert!(matches!(select_physical_device(&vec![]), Err(GraphicsCreateError::NoCompatableVulkanDevice)));
}

#[test]
fn queue_families() {
    // graphics+compute+transfer, compute only, transfer only
    let flags = vec![0b111, 0b010, 0b100];
    assert_eq!(graphics_queue_family(&flags).ok(), Some(0));
    assert_eq!(transfer_queue_family(&flags).ok(), Some(2));
    // No dedicated transfer family: the first with the transfer bit.
    assert_eq!(transfer_queue_family(&vec![0b010, 0b101, 0b100 | 0b010]).ok(), Some(1));
    match graphics_queue_family(&vec![0b100]) {
        Err(GraphicsCreateError::MissingRequiredVulkanQueueType(t)) => assert_eq!(t, "VK_QUEUE_GRAPHICS_BIT"),
        other => panic!("unexpected {:?}", other),
    }
    match transfer_queue_family(&vec![0b001]) {
        Err(GraphicsCreateError::MissingRequiredVulkanQueueType(t)) => assert_eq!(t, "VK_QUEUE_TRANSFER_BIT"),
        other => panic!("unexpected {:?}", other),
    }
}

#[test]
fn present_family_search() {
    assert_eq!(present_queue_family(&vec![Ok(false), Ok(true), Err(VkError::DeviceLost)]).ok(), Some(1));
    match present_queue_family(&vec![Ok(false), Err(VkError::SurfaceLost), Ok(true)]) {
        Err(GraphicsCreateError::VkError(e)) => assert_eq!(e, VkError::SurfaceLost),
        other => panic!("unexpected {:?}", other),
    }
    match present_queue_family(&vec![Ok(false)]) {
        Err(GraphicsCreateError::MissingRequiredVulkanQueueType(t)) => assert_eq!(t, "present queue"),
        other => panic!("unexpected {:?}", other),
    }
}

#[test]
fn queue_plan_shares_families() {
    let plan = plan_queues(0, 0, Some(0));
    assert_eq!(plan.requests, vec![QueueRequest { family: 0, count: 3 }]);
    assert_eq!(plan.transfer_queue_index, 1);
    assert_eq!(plan.present, Some((0, 2)));

    let plan = plan_queues(0, 1, Some(1));
    assert_eq!(plan.requests, vec![QueueRequest { family: 0, count: 1 }, QueueRequest { family: 1, count: 2 }]);
    assert_eq!(plan.transfer_queue_index, 0);
    assert_eq!(plan.present, Some((1, 1)));

    let plan = plan_queues(0, 1, Some(2));
    assert_eq!(plan.requests.len(), 3);
    assert_eq!(plan.requests[2], QueueRequest { family: 2, count: 1 });
    assert_eq!(plan.present, Some((2, 0)));

    let plan = plan_queues(3, 1, None);
    assert_eq!(plan.present, None);
    assert_eq!(plan.requests, vec![QueueRequest { family: 3, count: 1 }, QueueRequest { family: 1, count: 1 }]);
}

#[test]
fn swapchain_decisions() {
    let requested = Extent2D { width: 1920, height: 1080 };
    let undefined = Extent2D { width: 0xFFFF_FFFF, height: 0xFFFF_FFFF };
    let current = Extent2D { width: 800, height: 600 };
    assert_eq!(choose_swap_extent(undefined, requested), requested);
    assert_eq!(choose_swap_extent(current, requested), current);
    assert_eq!(swap_image_count(2), 3);
    assert_eq!(frame_semaphore_index(7, 3), 1);
    assert_eq!(on_swapchain_error(VkError::OutOfDate), SwapchainFailure::Recreate);
    assert_eq!(on_swapchain_error(VkError::DeviceLost), SwapchainFailure::Fatal(VkError::DeviceLost));
}

#[test]
fn graphics_error_from_vk_error() {
    let err: GraphicsCreateError = VkError::DeviceLost.into();
    assert!(matches!(err, GraphicsCreateError::VkError(VkError::DeviceLost)));
}
