use hydration_client::mount::{is_mount_point, mount_point_of, unescape};

#[test]
fn a_mount_point_field_is_read_past_the_optional_fields() {
    // The shape that breaks a naive parser: two optional fields, and a
    // mount point that would be picked up by counting from the right.
    let line = "31 64 0:34 /@onedrive /home/frank/OneDrive rw,noatime \
                shared:563 master:526 - btrfs /dev/nvme1n1p2 rw,subvol=/@onedrive";
    assert_eq!(
        mount_point_of(line).as_deref(),
        Some("/home/frank/OneDrive")
    );
}

#[test]
fn an_escaped_mount_point_is_matched_by_its_real_name() {
    let line = "31 64 0:34 / /home/frank/My\\040Documents rw - btrfs /dev/x rw";
    assert_eq!(
        mount_point_of(line).as_deref(),
        Some("/home/frank/My Documents")
    );
}

fn system() -> String {
    [
        "22 1 259:2 / / rw,relatime shared:1 - ext4 /dev/nvme0n1p2 rw",
        "23 22 0:21 / /proc rw,nosuid,nodev,noexec,relatime shared:12 - proc proc rw",
        "24 22 0:22 / /sys rw,nosuid,nodev,noexec,relatime shared:2 - sysfs sysfs rw",
        "",
    ]
    .join("\n")
}

#[test]
fn the_root_is_a_mount_and_a_directory_under_it_is_not() {
    let table = system();
    assert!(is_mount_point(&table, "/"));
    // A pair rather than a single case, so that a function which always answered
    // the same way could not pass.
    assert!(is_mount_point(&table, "/proc"));
    assert!(!is_mount_point(&table, "/proc/self"));
}

#[test]
fn a_path_that_does_not_exist_is_not_a_mount() {
    let table = system();
    assert!(!is_mount_point(&table, "/no-such-path-9d3f2a"));
}

#[test]
fn a_line_without_the_field_names_no_mount_point() {
    assert_eq!(mount_point_of("31 64 0:34 /"), None);
    assert_eq!(mount_point_of(""), None);
}

#[test]
fn only_whole_octal_escapes_are_replaced() {
    assert_eq!(unescape("a\\040b\\011c\\012d\\134e"), "a b\tc\nd\\e");
    assert_eq!(unescape("a\\04"), "a\\04");
    assert_eq!(unescape("a\\08z"), "a\\08z");
    assert_eq!(unescape("a\\+40z"), "a z", "a number may carry a plus sign");
    assert_eq!(unescape("a\\++0z"), "a\\++0z");
    assert_eq!(unescape("a\\-40z"), "a\\-40z");
    assert_eq!(unescape("a\\777z"), "a\\777z");
}

#[test]
fn a_table_is_searched_line_by_line() {
    let table = "1 0 0:1 / / rw - ext4 /dev/a rw\n\
                 2 1 0:2 / /mnt/My\\040Cloud rw shared:1 - btrfs /dev/b rw\n";
    assert!(is_mount_point(table, "/mnt/My Cloud"));
    assert!(is_mount_point(table, "/"));
    assert!(!is_mount_point(table, "/mnt"));
    assert!(!is_mount_point(table, "/mnt/My\\040Cloud"));
}

#[test]
fn a_name_beyond_ascii_is_its_own() {
    assert_eq!(unescape("/mnt/\u{e9}"), "/mnt/\u{e9}");
    assert_eq!(unescape("/mnt/\\303\\251"), "/mnt/\u{e9}");
    assert_eq!(unescape("/mnt/\\377"), "/mnt/\u{fffd}");
    let table = "1 0 0:1 / /mnt/\u{e9}t\u{e9}\\040\u{1f600} rw - ext4 /dev/a rw\n";
    assert!(is_mount_point(table, "/mnt/\u{e9}t\u{e9} \u{1f600}"));
}

#[test]
fn any_white_space_parts_two_fields() {
    assert_eq!(mount_point_of("1  0 0:1 / /a rw - x y z").as_deref(), Some("/a"));
    assert_eq!(mount_point_of("1\t0\t0:1 /\t/a rw - x y z").as_deref(), Some("/a"));
    assert_eq!(mount_point_of(" 1 0 0:1 / /a - x y z").as_deref(), Some("/a"));
    assert_eq!(mount_point_of("1 0 0:1 / /a\u{2003}b rw - x y z").as_deref(), Some("/a"));
    assert_eq!(mount_point_of("1 0 0:1 \t - x y z"), None);
}
