//! Disk images are read back by the code that the system boots with.
use std::io::{Cursor, Read};

use redoxfs::{DiskIo, FileSystem, Node, TreePtr};
use vanta::gpt::discover_vanta_root;
use vanta::image::{
    assemble_image, build_esp, build_image, build_redoxfs, can_keep_files, descend, plan_root_file, Descent, Found,
    ImageContents, ImageError, ImageOptions, RootFile, EIO,
};

fn sector_of(bytes: &[u8], sector: u64) -> Result<[u8; 512], ()> {
    let start = sector as usize * 512;
    let mut buffer = [0_u8; 512];
    buffer.copy_from_slice(&bytes[start..start + 512]);
    Ok(buffer)
}

fn fat_file(volume: &[u8], path: &str) -> Vec<u8> {
    let esp = fatfs::FileSystem::new(Cursor::new(volume.to_vec()), fatfs::FsOptions::new())
        .expect("FAT ESP");
    let mut contents = Vec::new();
    let root_dir = esp.root_dir();
    let mut file = root_dir.open_file(path).expect("file on the ESP");
    file.read_to_end(&mut contents).expect("readable file");
    contents
}

#[test]
fn builds_a_gpt_disk_with_bootable_esp_and_redoxfs_root() {
    let image = build_image(
        ImageOptions {
            esp_sectors: 8_192,
            root_sectors: 32_768,
        },
        ImageContents {
            boot_efi: b"limine-efi",
            kernel: b"vanta-kernel",
            limine_config: b"/vanta\n",
            root_files: &[],
        },
    )
    .expect("GPT image");

    let root = discover_vanta_root(|sector: u64| sector_of(image.bytes(), sector))
        .expect("Vanta root partition");

    assert_eq!(root, image.root_partition());
    assert_eq!(image.root_bytes()[..8], *b"RedoxFS\0");

    let esp = fatfs::FileSystem::new(
        Cursor::new(image.esp_bytes().to_vec()),
        fatfs::FsOptions::new(),
    )
    .expect("FAT ESP");
    let root_dir = esp.root_dir();
    assert!(root_dir.open_file("EFI/BOOT/BOOTX64.EFI").is_ok());
    assert!(root_dir.open_file("boot/vanta-kernel").is_ok());
}

#[test]
fn the_boot_volume_holds_each_file_with_its_contents() {
    let volume = build_esp(
        8_192,
        ImageContents {
            boot_efi: b"loader",
            kernel: b"kernel image",
            limine_config: b"timeout: 0\n",
            root_files: &[],
        },
    )
    .expect("ESP");
    assert_eq!(volume.len(), 8_192 * 512);
    assert_eq!(fat_file(&volume, "EFI/BOOT/BOOTX64.EFI"), b"loader");
    assert_eq!(fat_file(&volume, "boot/vanta-kernel"), b"kernel image");
    assert_eq!(fat_file(&volume, "limine.conf"), b"timeout: 0\n");
}

#[test]
fn a_boot_volume_too_small_for_its_files_is_refused() {
    let kernel = vec![7_u8; 8_192 * 512];
    let result = build_esp(
        8_192,
        ImageContents {
            boot_efi: b"loader",
            kernel: &kernel,
            limine_config: b"",
            root_files: &[],
        },
    );
    assert_eq!(result.err(), Some(ImageError::Io));
}

#[test]
fn partitions_hold_what_was_put_into_them() {
    let root_volume: Vec<u8> = (0..8_192 * 512).map(|i: usize| (i % 251) as u8).collect();
    let contents = ImageContents {
        boot_efi: b"boot",
        kernel: b"kernel",
        limine_config: b"config",
        root_files: &[],
    };
    let options = ImageOptions {
        esp_sectors: 8_192,
        root_sectors: 8_192,
    };
    let esp_volume = build_esp(8_192, contents).expect("ESP");
    let image = assemble_image(options, &esp_volume, &root_volume).expect("image");
    assert_eq!(image.root_bytes(), &root_volume[..]);
    assert_eq!(image.esp_bytes(), &esp_volume[..]);
    assert_eq!(image.bytes().len() % 512, 0);
    assert_eq!(image.bytes()[510..512], [0x55, 0xaa]);
    assert_eq!(image.bytes()[512..520], *b"EFI PART");
    assert_eq!(image.root_partition().start_lba, 2_048 + 8_192);
}

#[test]
fn an_image_without_room_is_refused() {
    let contents = ImageContents {
        boot_efi: b"boot",
        kernel: b"kernel",
        limine_config: b"config",
        root_files: &[],
    };
    let empty = build_image(
        ImageOptions {
            esp_sectors: 0,
            root_sectors: 8_192,
        },
        contents,
    );
    assert_eq!(empty.err(), Some(ImageError::InvalidLayout));
    assert_eq!(build_redoxfs(64, &[]).err(), Some(ImageError::RedoxFs(28)));
    let short = assemble_image(
        ImageOptions {
            esp_sectors: 8,
            root_sectors: 8,
        },
        &[0; 512],
        &[0; 512],
    );
    assert_eq!(short.err(), Some(ImageError::InvalidLayout));
}

#[test]
fn root_files_are_planned_by_their_directories() {
    let file = RootFile {
        path: "/usr/bin/vsh",
        contents: b"vsh",
        mode: 0o755,
        uid: 1000,
        gid: 1000,
    };
    let plan = plan_root_file(file.path).expect("a path with a name");
    assert_eq!(plan.parents, vec![b"usr".to_vec(), b"bin".to_vec()]);
    assert_eq!(plan.name, b"vsh");
    assert!(plan_root_file("/").is_none());
}

#[test]
fn a_directory_is_made_only_where_nothing_is_found() {
    assert_eq!(descend(Found::Directory), Descent::Enter);
    assert_eq!(descend(Found::Nothing), Descent::Create);
    assert_eq!(descend(Found::Other), Descent::Refuse(EIO));
    assert_eq!(descend(Found::Failed(13)), Descent::Refuse(13));
}

#[test]
fn redoxfs_root_contains_requested_native_programs() {
    let init = RootFile {
        path: "/sbin/init",
        contents: b"init",
        mode: 0o755,
        uid: 0,
        gid: 0,
    };
    let shell = RootFile {
        path: "/bin/vsh",
        contents: b"vsh",
        mode: 0o755,
        uid: 1000,
        gid: 1000,
    };
    let image = build_image(
        ImageOptions {
            esp_sectors: 8_192,
            root_sectors: 8_192,
        },
        ImageContents {
            boot_efi: b"boot",
            kernel: b"kernel",
            limine_config: b"config",
            root_files: &[init, shell],
        },
    )
    .unwrap();

    let mut fs = FileSystem::open(
        DiskIo(Cursor::new(image.root_bytes().to_vec())),
        None,
        None,
        true,
    )
    .unwrap();
    fs.tx(|tx| {
        let sbin = tx.find_node(TreePtr::root(), "sbin")?.ptr();
        let init = tx.find_node(sbin, "init")?;
        assert_eq!(init.data().mode(), Node::MODE_FILE | 0o755);
        let bin = tx.find_node(TreePtr::root(), "bin")?.ptr();
        let shell = tx.find_node(bin, "vsh")?;
        assert_eq!(shell.data().mode(), Node::MODE_FILE | 0o755);
        let mut contents = [0_u8; 8];
        assert_eq!(tx.read_node(shell.ptr(), 0, &mut contents, 0, 0)?, 3);
        assert_eq!(contents[..3], *b"vsh");
        Ok(())
    })
    .unwrap();
}

#[test]
fn a_root_file_through_a_file_is_refused() {
    let first = RootFile {
        path: "/bin",
        contents: b"a file",
        mode: 0o644,
        uid: 0,
        gid: 0,
    };
    let second = RootFile {
        path: "/bin/vsh",
        contents: b"vsh",
        mode: 0o755,
        uid: 0,
        gid: 0,
    };
    assert_eq!(build_redoxfs(8_192, &[first, second]).err(), Some(ImageError::RedoxFs(EIO)));
    let nameless = RootFile {
        path: "/",
        contents: b"",
        mode: 0o644,
        uid: 0,
        gid: 0,
    };
    assert_eq!(build_redoxfs(8_192, &[nameless]).err(), Some(ImageError::RedoxFs(EIO)));
}

#[test]
fn names_that_start_with_a_zero_byte_cannot_be_kept() {
    let file = |path: &'static str| RootFile {
        path,
        contents: b"",
        mode: 0o644,
        uid: 0,
        gid: 0,
    };
    assert!(can_keep_files(&[file("/bin/vsh"), file("/"), file("a//b")]));
    assert!(!can_keep_files(&[file("/bin/vsh"), file("/\0a")]));
    assert!(!can_keep_files(&[file("/\0bin/vsh")]));
}
