use sockmap::guest::{GuestType, LaunchArgs};

#[test]
fn guest_manager_interface_names() {
    assert_eq!(
        GuestType::Zircon.guest_manager_interface(),
        "fuchsia.virtualization.ZirconGuestManager"
    );
    assert_eq!(
        GuestType::Debian.guest_manager_interface(),
        "fuchsia.virtualization.DebianGuestManager"
    );
    assert_eq!(
        GuestType::Termina.guest_manager_interface(),
        "fuchsia.virtualization.TerminaGuestManager"
    );
}

#[test]
fn guest_type_names() {
    assert_eq!(GuestType::Debian.name(), "debian");
    assert_eq!(GuestType::Termina.name(), "termina");
    assert_eq!(GuestType::Zircon.name(), "zircon");
}

#[test]
fn launch_args_defaults() {
    let args = LaunchArgs::new(GuestType::Zircon);
    assert_eq!(args.guest_type, GuestType::Zircon);
    assert!(args.cmdline_add.is_empty());
    assert!(args.default_net);
    assert_eq!(args.memory, None);
    assert_eq!(args.cpus, None);
    assert!(args.interrupt.is_empty());
    assert!(args.virtio_balloon);
    assert!(args.virtio_console);
    assert!(args.virtio_gpu);
    assert!(args.virtio_rng);
    assert!(args.virtio_sound);
    assert!(!args.virtio_sound_input);
    assert!(args.virtio_vsock);
}
