use mandelbrot_blocks::device::{
    device_rank, select_physical_device, select_queue_family, DeviceCandidate, DeviceKind,
};

fn c(supports_extensions: bool, kind: DeviceKind) -> DeviceCandidate {
    DeviceCandidate { supports_extensions, kind }
}

#[test]
fn ranks() {
    assert_eq!(device_rank(DeviceKind::DiscreteGpu), 0);
    assert_eq!(device_rank(DeviceKind::IntegratedGpu), 1);
    assert_eq!(device_rank(DeviceKind::VirtualGpu), 2);
    assert_eq!(device_rank(DeviceKind::Cpu), 3);
    assert_eq!(device_rank(DeviceKind::Other), 4);
    assert_eq!(device_rank(DeviceKind::Unknown), 5);
}

#[test]
fn prefers_supported_discrete_gpu() {
    let list = [
        c(true, DeviceKind::Cpu),
        c(false, DeviceKind::DiscreteGpu),
        c(true, DeviceKind::IntegratedGpu),
        c(true, DeviceKind::IntegratedGpu),
    ];
    assert_eq!(select_physical_device(&list), Some(2));
}

#[test]
fn no_supported_device() {
    assert_eq!(select_physical_device(&[c(false, DeviceKind::DiscreteGpu)]), None);
    assert_eq!(select_physical_device(&[]), None);
}

#[test]
fn first_compute_queue_family() {
    assert_eq!(select_queue_family(&[false, true, true]), Some(1));
    assert_eq!(select_queue_family(&[false]), None);
}
