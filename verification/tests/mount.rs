use ublk_azblob::csi::mount::{
    connect_step, device_nodes, fs_profile, fsck_args, fsck_passed, is_numbered, listen_parts,
    list_available_nbd_devices, list_ublk_devices, wait_for_new_device, WaitError,
    meta_path, mkfs, mount_args, nbd_client_args, nbd_pid_file, new_device, our_target_mounts,
    overlay_args, overlay_dirs, parse_mountinfo, port_candidates, recorded_pid, run_args,
    unmounted, ConnectError, ConnectEvent, ConnectState, FsckMode, OverlayDirs, VolumeMeta,
};

/// Filesystems whose built-in profile must be able to format a fresh blob.
const FORMATTABLE: &[&str] = &["ext2", "ext3", "ext4", "xfs", "btrfs"];
/// Mount-only image / pool filesystems: never freshly formatted on a live device.
const MOUNT_ONLY: &[&str] = &["squashfs", "zfs", "ntfs"];

#[test]
fn fsck_mode_parses_off_values() {
    for v in ["", "  ", "false", "OFF", "No", "none", "0"] {
        assert_eq!(FsckMode::parse(v).unwrap(), FsckMode::Off, "value: {v:?}");
    }
}

#[test]
fn fsck_mode_parses_preen_values() {
    for v in ["true", "TRUE", "auto", "preen", "yes", "on", "1"] {
        assert_eq!(FsckMode::parse(v).unwrap(), FsckMode::Preen, "value: {v:?}");
    }
}

#[test]
fn fsck_mode_parses_force_values() {
    for v in ["force", "Full"] {
        assert_eq!(FsckMode::parse(v).unwrap(), FsckMode::Force, "value: {v:?}");
    }
}

#[test]
fn fsck_mode_rejects_unknown_values() {
    assert!(FsckMode::parse("maybe").is_err());
}

#[test]
fn overlay_dirs_are_hidden_siblings_of_target() {
    let dirs = overlay_dirs("/var/lib/kubelet/pods/abc/volumes/x/pvc-1/mount", None, "pvc-1");
    let parent = "/var/lib/kubelet/pods/abc/volumes/x/pvc-1";
    assert_eq!(dirs.lower, format!("{parent}/.ublk-overlay-lower"));
    assert_eq!(dirs.upper, format!("{parent}/.ublk-overlay-upper"));
    assert_eq!(dirs.work, format!("{parent}/.ublk-overlay-work"));
    assert!(dirs.scratch_root.is_none());
    // upper and work must share the target's parent filesystem and must not sit
    // inside the merged target (an overlayfs requirement).
    for d in [&dirs.upper, &dirs.work, &dirs.lower] {
        assert!(!d.starts_with("/var/lib/kubelet/pods/abc/volumes/x/pvc-1/mount/"));
        assert!(d.starts_with(parent));
    }
}

#[test]
fn overlay_dirs_use_configured_scratch_base() {
    let dirs = overlay_dirs(
        "/var/lib/kubelet/pods/abc/volumes/x/pvc-1/mount",
        Some("/mnt/ssd/overlay"),
        "pvc-1",
    );
    let root = "/mnt/ssd/overlay/pvc-1";
    // lower stays a hidden sibling of the target (it is only a mount point).
    assert_eq!(dirs.lower, "/var/lib/kubelet/pods/abc/volumes/x/pvc-1/.ublk-overlay-lower");
    // upper and work move onto the configured base, under a per-volume root so
    // they share one filesystem and can't collide across volumes.
    assert_eq!(dirs.upper, format!("{root}/upper"));
    assert_eq!(dirs.work, format!("{root}/work"));
    assert_eq!(dirs.scratch_root.as_deref(), Some(root));
}

#[test]
fn overlay_dirs_sanitize_volume_id_for_scratch_base() {
    // A volume id with path separators must not escape the scratch base.
    let dirs = overlay_dirs("/tgt/mount", Some("/mnt/ssd"), "../../etc/evil");
    assert_eq!(dirs.scratch_root.as_deref(), Some("/mnt/ssd/______etc_evil"));
    assert!(dirs.upper.starts_with("/mnt/ssd/______etc_evil/"));
}

#[test]
fn fs_profile_formattable_types_have_mkfs_options() {
    for fs in FORMATTABLE {
        assert!(
            fs_profile(fs).mkfs_options.is_some(),
            "formattable filesystem {fs:?} must have built-in mkfs options"
        );
    }
}

#[test]
fn fs_profile_mount_only_and_unknown_types_have_no_mkfs_options() {
    for fs in MOUNT_ONLY.iter().chain(["not-a-fs", ""].iter()) {
        assert!(
            fs_profile(fs).mkfs_options.is_none(),
            "mount-only / unknown filesystem {fs:?} must not advertise mkfs options"
        );
    }
}

/// `mkfs` returns a "format not supported" error for every filesystem that cannot
/// be created on a live device.
#[test]
fn mkfs_rejects_unformattable_filesystems() {
    for fs in MOUNT_ONLY.iter().chain(["not-a-fs"].iter()) {
        let err = mkfs("/dev/null", fs)
            .expect_err(&format!("mkfs({fs:?}) must fail for an unformattable filesystem"));
        let msg = err.message();
        assert!(msg.contains("does not support mkfs"), "unexpected error for {fs:?}: {msg}");
    }
}

#[test]
fn mkfs_commands() {
    let c = mkfs("/dev/ublkb0", "ext4").unwrap();
    assert_eq!(c.program, "mkfs.ext4");
    assert_eq!(
        c.args,
        vec!["-F", "-E", "nodiscard,lazy_itable_init=1,lazy_journal_init=1", "/dev/ublkb0"]
    );
    assert_eq!(mkfs("/dev/x", "xfs").unwrap().args, vec!["-f", "/dev/x"]);
}

fn sample_meta(overlay: bool) -> VolumeMeta {
    VolumeMeta {
        volume_id: "vol-123#container#blob".to_string(),
        device: "/dev/nbd9".to_string(),
        pid: 4242,
        nbd: true,
        overlay: if overlay {
            Some(OverlayDirs {
                lower: "/kubelet/pods/u/volumes/x/.ublk-overlay-lower".to_string(),
                upper: "/kubelet/pods/u/volumes/x/.ublk-overlay-upper".to_string(),
                work: "/kubelet/pods/u/volumes/x/.ublk-overlay-work".to_string(),
                scratch_root: None,
            })
        } else {
            None
        },
    }
}

#[test]
fn volume_meta_roundtrips_overlay_and_plain() {
    for overlay in [false, true] {
        let m = sample_meta(overlay);
        let parsed = VolumeMeta::parse(&m.serialize()).expect("parse serialized meta");
        assert_eq!(parsed, m, "roundtrip mismatch (overlay={overlay})");
    }
}

#[test]
fn volume_meta_roundtrips_with_scratch_root() {
    let mut m = sample_meta(true);
    if let Some(o) = &mut m.overlay {
        o.scratch_root = Some("/mnt/ssd/scratch/vol-123".to_string());
    }
    assert_eq!(VolumeMeta::parse(&m.serialize()).unwrap(), m);
}

#[test]
fn volume_meta_parse_rejects_incomplete_or_garbage() {
    assert!(VolumeMeta::parse("volume_id\tv\ndevice\t/dev/nbd0\n").is_none()); // no pid
    assert!(VolumeMeta::parse("device\t/dev/nbd0\npid\t1\n").is_none()); // no volume_id
    assert!(VolumeMeta::parse("volume_id\tv\ndevice\t/dev/nbd0\npid\tNaN\n").is_none());
    // overlay=true but missing lower/upper/work
    assert!(VolumeMeta::parse("volume_id\tv\ndevice\td\npid\t1\noverlay\ttrue\n").is_none());
}

#[test]
fn meta_path_is_hidden_sibling_of_target() {
    let p = meta_path("/kubelet/pods/u/volumes/kubernetes.io~csi/pvc-x/mount");
    assert_eq!(p, "/kubelet/pods/u/volumes/kubernetes.io~csi/pvc-x/.ublk-volume-meta");
}

#[test]
fn parse_mountinfo_extracts_mountpoint_fstype_source_opts() {
    let content = "\
790 42 43:9 / /kubelet/pods/u/volumes/x/.ublk-overlay-lower ro,relatime - ext4 /dev/nbd9 ro
791 42 0:55 / /kubelet/pods/u/volumes/x/mount rw,relatime shared:1 - overlay overlay rw,lowerdir=/kubelet/pods/u/volumes/x/.ublk-overlay-lower,upperdir=/a,workdir=/b
1 0 8:1 / / rw - ext4 /dev/sda1 rw";
    let e = parse_mountinfo(content);
    assert_eq!(e.len(), 3);
    assert_eq!(e[0].mountpoint, "/kubelet/pods/u/volumes/x/.ublk-overlay-lower");
    assert_eq!(e[0].fstype, "ext4");
    assert_eq!(e[0].source, "/dev/nbd9");
    // Optional field (shared:1) before the '-' must not shift parsing.
    assert_eq!(e[1].fstype, "overlay");
    assert!(e[1].super_opts.contains("lowerdir=/kubelet/pods/u/volumes/x/.ublk-overlay-lower"));
}

#[test]
fn our_target_mounts_selects_overlay_and_device_but_not_lower() {
    let content = "\
790 42 43:9 / /kubelet/pods/u/volumes/x/.ublk-overlay-lower ro - ext4 /dev/nbd9 ro
791 42 0:55 / /kubelet/pods/u/volumes/x/mount rw - overlay overlay rw,lowerdir=/kubelet/pods/u/volumes/x/.ublk-overlay-lower,upperdir=/a,workdir=/b
792 42 43:5 / /kubelet/pods/v/volumes/y/mount rw - ext4 /dev/ublkb3 rw
793 42 43:1 / /kubelet/pods/w/volumes/z/mount rw - ext4 /dev/nbd4 rw
1 0 8:1 / / rw - ext4 /dev/sda1 rw
2 0 0:99 / /var/log rw - overlay overlay rw,lowerdir=/some/other/dir";
    let mut targets = our_target_mounts(&parse_mountinfo(content));
    targets.sort();
    assert_eq!(
        targets,
        vec![
            "/kubelet/pods/u/volumes/x/mount".to_string(), // overlay w/ our lower
            "/kubelet/pods/v/volumes/y/mount".to_string(), // /dev/ublkb3
            "/kubelet/pods/w/volumes/z/mount".to_string(), // /dev/nbd4
        ],
        "must pick our overlay + device targets, exclude the lower, /, and unrelated overlays"
    );
}

#[test]
fn mounts_are_read_only_when_asked() {
    let none: Vec<String> = Vec::new();
    assert_eq!(
        mount_args("/dev/a", "/t", "ext4", &none, true),
        vec!["-t", "ext4", "-o", "ro,noload", "/dev/a", "/t"]
    );
    assert_eq!(
        mount_args("/dev/a", "/t", "xfs", &vec!["noatime".to_string()], true),
        vec!["-t", "xfs", "-o", "noatime,ro", "/dev/a", "/t"]
    );
    assert_eq!(mount_args("/dev/a", "/t", "ext4", &none, false), vec!["-t", "ext4", "/dev/a", "/t"]);
    assert!(unmounted(true, ""));
    assert!(unmounted(false, "umount: /t: not mounted."));
    assert!(!unmounted(false, "umount: /t: target is busy."));
}

#[test]
fn fsck_commands() {
    assert_eq!(fsck_args("/dev/a", "ext4", FsckMode::Off), None);
    assert_eq!(
        fsck_args("/dev/a", "ext4", FsckMode::Preen).unwrap(),
        vec!["-t", "ext4", "-a", "/dev/a"]
    );
    assert_eq!(
        fsck_args("/dev/a", "ext4", FsckMode::Force).unwrap(),
        vec!["-t", "ext4", "-f", "-y", "/dev/a"]
    );
    assert!(fsck_passed(Some(1)));
    assert!(!fsck_passed(Some(4)));
    assert!(!fsck_passed(None));
}

#[test]
fn overlays_are_stacked() {
    let d = overlay_dirs("/p/mount", None, "v");
    assert_eq!(
        overlay_args("/p/mount", &d),
        vec![
            "-t",
            "overlay",
            "overlay",
            "-o",
            "lowerdir=/p/.ublk-overlay-lower,upperdir=/p/.ublk-overlay-upper,workdir=/p/.ublk-overlay-work",
            "/p/mount",
        ]
    );
}

#[test]
fn devices_are_told_by_their_names() {
    assert!(is_numbered("ublkb12", "ublkb"));
    assert!(!is_numbered("ublkb", "ublkb"));
    assert!(!is_numbered("ublkb-control", "ublkb"));
    let names = vec!["nbd1".to_string(), "sda".to_string(), "nbd0".to_string()];
    assert_eq!(device_nodes(&names, "nbd"), vec!["/dev/nbd1", "/dev/nbd0"]);
    let before = vec!["/dev/ublkb0".to_string()];
    let now = vec!["/dev/ublkb0".to_string(), "/dev/ublkb1".to_string()];
    assert_eq!(new_device(&now, &before).as_deref(), Some("/dev/ublkb1"));
    assert_eq!(new_device(&before, &before), None);
    assert_eq!(nbd_pid_file("/dev/nbd3").as_deref(), Some("/sys/block/nbd3/pid"));
    assert_eq!(recorded_pid(" 42\n"), Some(42));
    assert_eq!(recorded_pid("x"), None);
    assert_eq!(port_candidates(65534, 5), vec![65534, 65535]);
}

#[test]
fn children_are_told_what_to_serve() {
    assert_eq!(run_args(4096, &None), vec!["run", "--size", "4096"]);
    assert_eq!(
        run_args(4096, &Some("127.0.0.1:1".to_string())),
        vec!["run", "--size", "4096", "--nbd", "127.0.0.1:1"]
    );
    assert_eq!(nbd_client_args("h", 10809, "/dev/nbd0"), vec!["h", "10809", "/dev/nbd0", "-L"]);
    assert_eq!(listen_parts("h:1").unwrap(), ("h".to_string(), 1));
    assert!(matches!(listen_parts("h"), Err(ConnectError::BadAddress)));
    assert!(matches!(listen_parts("h:x"), Err(ConnectError::BadPort)));
}

#[test]
fn a_device_is_handed_out_once_it_has_a_size() {
    let s = connect_step(ConnectState::AwaitServer, ConnectEvent::Alive { listening: true });
    let s = connect_step(s, ConnectEvent::Alive { listening: true });
    let s = connect_step(s, ConnectEvent::Devices(vec!["/dev/nbd0".to_string()]));
    let s = connect_step(s, ConnectEvent::Attached(Ok(())));
    let s = connect_step(s, ConnectEvent::Size(Some("0\n".to_string())));
    assert!(matches!(s, ConnectState::AwaitSize { .. }));
    let s = connect_step(s, ConnectEvent::Size(Some("8\n".to_string())));
    assert!(matches!(s, ConnectState::Finished(Ok(d)) if d == "/dev/nbd0"));
    let s = connect_step(ConnectState::PickDevice, ConnectEvent::Devices(vec![]));
    assert!(matches!(s, ConnectState::Finished(Err(ConnectError::NoDevice))));
}

#[test]
fn available_devices_are_those_not_connected() {
    let entries: Vec<String> = ["nbd0", "nbd1", "ublkb3", "ublkc3", "nbd", "nbd12"]
        .iter()
        .map(|s| s.to_string())
        .collect();
    assert_eq!(list_ublk_devices(&entries), vec!["/dev/ublkb3"]);
    let connected = vec!["/dev/nbd1".to_string()];
    assert_eq!(
        list_available_nbd_devices(&entries, &connected),
        vec!["/dev/nbd0", "/dev/nbd12"]
    );
}

#[test]
fn a_new_device_ends_the_wait() {
    let before = vec!["/dev/ublkb0".to_string()];
    let now = vec!["/dev/ublkb0".to_string(), "/dev/ublkb1".to_string()];
    let gone = || Some("exit status: 1".to_string());
    assert_eq!(wait_for_new_device(&now, &before, None, false).unwrap().unwrap(), "/dev/ublkb1");
    // A device that has appeared counts, though the child has exited.
    assert_eq!(wait_for_new_device(&now, &before, gone(), false).unwrap().unwrap(), "/dev/ublkb1");
    assert!(matches!(
        wait_for_new_device(&before, &before, gone(), false),
        Some(Err(WaitError::Exited(_)))
    ));
    assert!(wait_for_new_device(&before, &before, None, false).is_none());
    assert!(matches!(
        wait_for_new_device(&now, &before, None, true),
        Some(Err(WaitError::TimedOut))
    ));
}

#[test]
fn overlays_of_other_volumes_lie_elsewhere() {
    let a = overlay_dirs("/t/m", Some("/scratch/"), "");
    let b = overlay_dirs("/t/m", Some("/scratch/"), "upper");
    assert_eq!((a.upper.as_str(), b.upper.as_str()), ("/scratch/upper", "/scratch/upper/upper"));
    assert_ne!(a.scratch_root, b.scratch_root);
}
