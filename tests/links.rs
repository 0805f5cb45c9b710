use vm_backing::link::{
    get_link_count, link_file_name, mount_fat_fs, parse_file_name, read_link, try_add_link, try_add_rev_link, try_remove_link,
    umount_fat_fs, FileDisc, LinkTable, MountTable, MountedFs, Unlink,
};

fn name(path: &str, file: &str) -> (String, String) {
    (path.to_string(), file.to_string())
}

#[test]
fn unlinked_name_resolves_to_itself() {
    let table = LinkTable::new();
    assert_eq!(parse_file_name(&table, name("./", "a")), name("./", "a"));
    assert_eq!(get_link_count(&table, "./".to_string(), "a"), 1);
}

#[test]
fn link_resolves_and_counts() {
    let mut table = LinkTable::new();
    assert!(try_add_link(&mut table, "./".to_string(), "a", "./d/".to_string(), "b", true, false));
    assert_eq!(parse_file_name(&table, name("./d/", "b")), name("./", "a"));
    assert_eq!(parse_file_name(&table, name("./", "a")), name("./", "a"));
    assert_eq!(get_link_count(&table, "./".to_string(), "a"), 2);
    assert_eq!(get_link_count(&table, "./d/".to_string(), "b"), 2);
    // a link to the link lands on the real file
    assert!(try_add_link(&mut table, "./d/".to_string(), "b", "./".to_string(), "c", true, false));
    assert_eq!(parse_file_name(&table, name("./", "c")), name("./", "a"));
    assert_eq!(get_link_count(&table, "./".to_string(), "c"), 3);
}

#[test]
fn link_refused_when_target_missing_or_name_taken() {
    let mut table = LinkTable::new();
    assert!(!try_add_link(&mut table, "./".to_string(), "a", "./".to_string(), "b", false, false));
    assert!(!try_add_link(&mut table, "./".to_string(), "a", "./".to_string(), "b", true, true));
    assert_eq!(parse_file_name(&table, name("./", "b")), name("./", "b"));
    assert_eq!(get_link_count(&table, "./".to_string(), "a"), 1);
}

#[test]
fn reversed_link_arguments() {
    let mut table = LinkTable::new();
    assert!(try_add_rev_link(&mut table, "./".to_string(), "new", "./".to_string(), "old", false, true));
    assert_eq!(parse_file_name(&table, name("./", "new")), name("./", "old"));
}

#[test]
fn remove_links_until_file_goes() {
    let mut table = LinkTable::new();
    assert!(try_add_link(&mut table, "./".to_string(), "a", "./".to_string(), "b", true, false));
    let r = try_remove_link(&mut table, "./".to_string(), "b", "./".to_string(), "b".to_string(), true, false);
    assert_eq!(r, Unlink::Unlinked);
    assert_eq!(parse_file_name(&table, name("./", "b")), name("./", "b"));
    assert_eq!(get_link_count(&table, "./".to_string(), "a"), 1);
    let r = try_remove_link(&mut table, "./".to_string(), "a", "./".to_string(), "a".to_string(), true, false);
    assert_eq!(r, Unlink::Remove);
}

#[test]
fn remove_unlinked_file_directory_and_missing() {
    let mut table = LinkTable::new();
    let r = try_remove_link(&mut table, "./".to_string(), "f", "./".to_string(), "f".to_string(), true, false);
    assert_eq!(r, Unlink::Remove);
    let r = try_remove_link(&mut table, "./".to_string(), "d", "./".to_string(), "d".to_string(), false, true);
    assert_eq!(r, Unlink::Remove);
    let r = try_remove_link(&mut table, "./".to_string(), "x", "./".to_string(), "x".to_string(), false, false);
    assert_eq!(r, Unlink::Refused);
}

#[test]
fn file_disc_and_mounted_fs_hold_their_names() {
    let d = FileDisc::new(&"./p/".to_string(), &"f".to_string());
    assert_eq!(d.path, "./p/");
    assert_eq!(d.file, "f");
    let m = MountedFs::new("./dev/sda", "./mnt/");
    assert_eq!(m.device, "./dev/sda");
    assert_eq!(m.mnt_dir, "./mnt/");
}

#[test]
fn mount_and_umount() {
    let mut table = LinkTable::new();
    assert!(try_add_link(&mut table, "./dev/".to_string(), "disk", "./".to_string(), "img", true, false));
    let mut mounts = MountTable::new();
    assert!(!mount_fat_fs(&mut mounts, &table, "./".to_string(), "img", "./mnt/".to_string(), false));
    assert_eq!(mounts.len(), 0);
    assert!(mount_fat_fs(&mut mounts, &table, "./".to_string(), "img", "./mnt/".to_string(), true));
    assert!(mount_fat_fs(&mut mounts, &table, "./".to_string(), "other", "./m2/".to_string(), true));
    assert_eq!(mounts.len(), 2);
    assert_eq!(mounts.get(0).device, "./dev/disk");
    assert_eq!(mounts.get(0).mnt_dir, "./mnt/");
    assert_eq!(mounts.get(1).device, "./other");
    assert!(umount_fat_fs(&mut mounts, "./mnt/".to_string()));
    assert_eq!(mounts.len(), 1);
    assert!(!umount_fat_fs(&mut mounts, "./mnt/".to_string()));
    assert!(umount_fat_fs(&mut mounts, "./m2/".to_string()));
    assert_eq!(mounts.len(), 0);
}

#[test]
fn read_link_of_file_and_directory() {
    let mut table = LinkTable::new();
    assert!(try_add_link(&mut table, "./".to_string(), "a", "./d/".to_string(), "b", true, false));
    assert_eq!(read_link(&table, "./d/".to_string(), "b".to_string()), Some("./a".to_string()));
    assert_eq!(read_link(&table, "./d/".to_string(), "c".to_string()), None);
    assert!(try_add_link(&mut table, "./".to_string(), "t", "./x/".to_string(), "y", true, false));
    assert_eq!(read_link(&table, "./x/y/".to_string(), String::new()), Some("./t".to_string()));
    assert_eq!(read_link(&table, "./".to_string(), String::new()), None);
    assert_eq!(read_link(&table, "abc".to_string(), String::new()), None);
    assert_eq!(read_link(&table, String::new(), String::new()), None);
}

#[test]
fn read_link_under_compiler_headers() {
    let table = LinkTable::new();
    let path = "./riscv64-linux-musl-native/lib/gcc/riscv64-linux-musl/11.2.1/include/sys/".to_string();
    assert_eq!(
        read_link(&table, path, "types.h".to_string()),
        Some("/riscv64-linux-musl-native/include/sys/types.h".to_string())
    );
    assert_eq!(read_link(&table, "./usr/include/".to_string(), "types.h".to_string()), None);
}

#[test]
fn dot_entries_get_a_trailing_slash() {
    assert_eq!(link_file_name("a/."), "a/./");
    assert_eq!(link_file_name("a/.."), "a/../");
    assert_eq!(link_file_name("/."), "/./");
    assert_eq!(link_file_name("a.b"), "a.b");
    assert_eq!(link_file_name("a/..b"), "a/..b");
    assert_eq!(link_file_name("."), ".");
    assert_eq!(link_file_name(""), "");
}
