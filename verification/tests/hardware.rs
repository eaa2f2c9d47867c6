//! What is known of the machine, and the settings that follow.

use myailocalmodel::double::Double;
use myailocalmodel::hardware::{
    bytes_to_gb, detect_gpu, detect_hardware, names_fallback_driver, recommended_context_size,
    recommended_gpu_layers, HardwareProfile, SystemReadings, VideoController,
};

const GIB: u64 = 1 << 30;

fn double(x: f64) -> Double {
    Double { bits: x.to_bits() }
}

fn float(x: Double) -> f64 {
    f64::from_bits(x.bits)
}

fn readings() -> SystemReadings {
    SystemReadings {
        system_name: Some("Debian".into()),
        platform: "linux".into(),
        arch: "x86_64".into(),
        cpu_count: 8,
        total_memory: 16 * GIB,
        available_memory: 9 * GIB + GIB / 2,
        disk_spaces: vec![10 * GIB, 250 * GIB, 100 * GIB],
    }
}

fn device(name: Option<&str>, ram: Option<u64>) -> VideoController {
    VideoController { name: name.map(|n| n.to_string()), adapter_ram: ram }
}

fn profile(total: f64, vram: Option<f64>) -> HardwareProfile {
    HardwareProfile {
        os_name: "Windows".into(),
        arch: "x86_64".into(),
        cpu_cores: 12,
        total_ram_gb: double(total),
        available_ram_gb: double(total),
        disk_free_gb: double(1.0),
        gpu_name: None,
        vram_gb: vram.map(double),
        notes: vec![],
    }
}

#[test]
fn bytes_become_tenths_of_gigabytes() {
    assert_eq!(float(bytes_to_gb(0)), 0.0);
    assert_eq!(float(bytes_to_gb(GIB)), 1.0);
    assert_eq!(float(bytes_to_gb(5_153_960_755)), 4.8);
    assert_eq!(float(bytes_to_gb(GIB + GIB / 4)), 1.3);
    let mut bytes: u64 = 7;
    for _ in 0..64 {
        let expected = (bytes as f64 / 1024_f64.powi(3) * 10.0).round() / 10.0;
        assert_eq!(bytes_to_gb(bytes).bits, expected.to_bits(), "{bytes}");
        bytes = bytes.wrapping_mul(0x9e37_79b9_7f4a_7c15).wrapping_add(11) >> 1;
    }
    assert_eq!(bytes_to_gb(u64::MAX).bits, (((u64::MAX as f64) / 1024_f64.powi(3) * 10.0).round() / 10.0).to_bits());
}

#[test]
fn whole_gigabytes_stay_whole() {
    for n in [0, 1, 3, 64, 1000, (1 << 34) - 1] {
        assert_eq!(float(bytes_to_gb(n * GIB)), n as f64);
    }
}

#[test]
fn more_bytes_are_never_fewer_gigabytes() {
    let mut last = 0.0;
    for k in 0..2000 {
        let gb = float(bytes_to_gb(k * 53_687_091));
        assert!(last <= gb);
        last = gb;
    }
}

#[test]
fn context_grows_with_memory() {
    assert_eq!(recommended_context_size(&profile(8.0, None)), 4096);
    assert_eq!(recommended_context_size(&profile(31.9, None)), 4096);
    assert_eq!(recommended_context_size(&profile(32.0, None)), 8192);
    assert_eq!(recommended_context_size(&profile(63.9, None)), 8192);
    assert_eq!(recommended_context_size(&profile(64.0, None)), 16384);
    assert_eq!(recommended_context_size(&profile(f64::NAN, None)), 4096);
}

#[test]
fn layers_grow_with_graphics_memory() {
    assert_eq!(recommended_gpu_layers(&profile(8.0, None)), 0);
    assert_eq!(recommended_gpu_layers(&profile(8.0, Some(3.9))), 0);
    assert_eq!(recommended_gpu_layers(&profile(8.0, Some(4.0))), 16);
    assert_eq!(recommended_gpu_layers(&profile(8.0, Some(6.0))), 28);
    assert_eq!(recommended_gpu_layers(&profile(8.0, Some(9.9))), 28);
    assert_eq!(recommended_gpu_layers(&profile(8.0, Some(10.0))), 999);
}

#[test]
fn fallback_driver_is_known_by_its_name() {
    assert!(names_fallback_driver("microsoft basic display adapter"));
    assert!(!names_fallback_driver("nvidia geforce"));
}

#[test]
fn adapter_with_most_memory_is_used() {
    let mut notes = vec![];
    let devices = vec![
        device(Some("Small"), Some(2 * GIB)),
        device(Some("Large"), Some(12 * GIB)),
        device(Some("MICROSOFT BASIC DISPLAY ADAPTER"), Some(64 * GIB)),
        device(None, Some(128 * GIB)),
        device(Some("Medium"), Some(8 * GIB)),
    ];
    let (name, vram) = detect_gpu(&devices, &mut notes);
    assert_eq!(name.as_deref(), Some("Large"));
    assert_eq!(vram.map(float), Some(12.0));
    assert!(notes.is_empty());
}

#[test]
fn last_of_equal_adapters_is_used() {
    let mut notes = vec![];
    let devices = vec![device(Some("First"), Some(4 * GIB)), device(Some("Second"), Some(4 * GIB))];
    assert_eq!(detect_gpu(&devices, &mut notes).0.as_deref(), Some("Second"));
}

#[test]
fn adapter_of_unknown_memory_is_noted() {
    let mut notes = vec!["before".to_string()];
    let (name, vram) = detect_gpu(&vec![device(Some("Mystery"), None)], &mut notes);
    assert_eq!(name.as_deref(), Some("Mystery"));
    assert!(vram.is_none());
    assert_eq!(
        notes,
        vec![
            "before".to_string(),
            "Windows detected a GPU but did not report VRAM. The wizard will choose RAM-first settings.".to_string(),
        ]
    );
}

#[test]
fn machine_is_described() {
    let found = detect_hardware(readings(), &vec![device(Some("Large"), Some(12 * GIB))]);
    assert_eq!(found.os_name, "Debian");
    assert_eq!(found.arch, "x86_64");
    assert_eq!(found.cpu_cores, 8);
    assert_eq!(float(found.total_ram_gb), 16.0);
    assert_eq!(float(found.available_ram_gb), 9.5);
    assert_eq!(float(found.disk_free_gb), 250.0);
    assert_eq!(found.gpu_name.as_deref(), Some("Large"));
    assert_eq!(found.vram_gb.map(float), Some(12.0));
    assert!(found.notes.is_empty());
}

#[test]
fn machine_without_reports_is_described() {
    let mut bare = readings();
    bare.system_name = None;
    bare.cpu_count = 0;
    bare.disk_spaces = vec![];
    let found = detect_hardware(bare, &vec![]);
    assert_eq!(found.os_name, "linux");
    assert_eq!(found.cpu_cores, 1);
    assert_eq!(float(found.disk_free_gb), 0.0);
    assert!(found.gpu_name.is_none());
    assert!(found.vram_gb.is_none());
    assert_eq!(
        found.notes,
        vec!["No discrete GPU was detected. The setup wizard will use conservative CPU-friendly settings.".to_string()]
    );
}
