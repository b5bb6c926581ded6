use hydration_client::args::{
    default_control, default_socket, parse, parse_control, socket_refusal, Args,
};
use hydration_client::place::{
    make_parents, place_refusal, relative, remove_refusal, scratch_path, ConditionalPlace,
    LinkStep, ReplacementGuard, SwapStep, EEXIST, ENOENT,
};
use hydration_client::table::FileId;
use hydration_client::providers::{FolderCloud, Listed, Stored};

#[test]
fn a_path_outside_the_root_is_refused_rather_than_resolved() {
    for bad in [
        "/tmp/elsewhere.bin",
        "/dir/../escaped.bin",
        "/dir/sub/../../escaped.bin",
        "/dir",
    ] {
        assert_eq!(relative("/dir", bad), None, "{bad} is not below the root");
    }
    assert_eq!(relative("/dir", "/dir/sub/a.bin").as_deref(), Some("sub/a.bin"));
    assert_eq!(
        place_refusal("/dir", "/x"),
        "/x is not below the sync root /dir; refusing rather than resolving it from /"
    );
    assert_eq!(
        remove_refusal("/dir", "/x"),
        "/x is not below the sync root /dir"
    );
}

#[test]
fn parents_are_made_from_the_outside_in() {
    assert_eq!(make_parents("a/b/c.txt"), ["a", "a/b"]);
    assert!(make_parents("c.txt").is_empty());
}

#[test]
fn a_scratch_name_stands_beside_its_file() {
    assert_eq!(scratch_path("sub/report.pdf", 7), "sub/.report.pdf.hydration-7");
    assert_eq!(scratch_path("a", 12), ".a.hydration-12");
}

#[test]
fn a_taken_name_is_replaced_in_one_step() {
    assert_eq!(LinkStep::Link.link_into_place(Ok(())), LinkStep::Done(Ok(())));
    assert_eq!(
        LinkStep::Link.link_into_place(Err(13)),
        LinkStep::Done(Err(13))
    );
    let s = LinkStep::Link.link_into_place(Err(EEXIST));
    assert_eq!(s, LinkStep::ClearScratch);
    let s = s.link_into_place(Err(2));
    assert_eq!(s, LinkStep::LinkScratch);
    let s = s.link_into_place(Ok(()));
    assert_eq!(s, LinkStep::Rename);
    assert_eq!(s.link_into_place(Ok(())), LinkStep::Done(Ok(())));
    let s = LinkStep::Rename.link_into_place(Err(5));
    assert_eq!(s, LinkStep::Cleanup(5));
    assert_eq!(s.link_into_place(Ok(())), LinkStep::Done(Err(5)));
}

fn approved() -> ReplacementGuard {
    ReplacementGuard {
        id: FileId { fsid: 1, ino: 7 },
        size: 100,
        mtime: 1_700_000_000,
        mtime_nsec: 5,
    }
}

/// Runs a swap to its end. The name and the scratch name hold one file each;
/// `save` is what lands at the name just before the exchange.
fn swap(save: Option<ReplacementGuard>) -> (ConditionalPlace, Option<u64>, Option<u64>) {
    let guard = approved();
    let (mut name, mut scratch) = (Some(guard), None);
    let placeholder = ReplacementGuard {
        id: FileId { fsid: 1, ino: 99 },
        ..guard
    };
    let mut step = SwapStep::ClearScratch;
    loop {
        let r = match step {
            SwapStep::ClearScratch | SwapStep::Discard(_) => {
                scratch = None;
                Ok(None)
            }
            SwapStep::LinkScratch => {
                scratch = Some(placeholder);
                name = save.or(name);
                Ok(None)
            }
            SwapStep::Exchange | SwapStep::PutBack => {
                (name, scratch) = (scratch, name);
                Ok(None)
            }
            SwapStep::Look => Ok(scratch),
            SwapStep::Done(r) => {
                return (r.unwrap(), name.map(|f| f.id.ino), scratch.map(|f| f.id.ino))
            }
        };
        step = step.swap_into_place(&guard, r);
    }
}

#[test]
fn an_approved_file_is_swapped_for_its_placeholder() {
    assert_eq!(swap(None), (ConditionalPlace::Placed, Some(99), None));
    assert!(approved().admits(&approved()));
}

#[test]
fn a_file_saved_in_between_is_put_back() {
    let was = approved();
    for saved in [
        ReplacementGuard {
            id: FileId { fsid: 1, ino: 8 },
            ..was
        },
        ReplacementGuard { size: 101, ..was },
        ReplacementGuard {
            mtime: was.mtime + 1,
            ..was
        },
        ReplacementGuard {
            mtime_nsec: 6,
            ..was
        },
    ] {
        assert!(!was.admits(&saved));
        let ino = saved.id.ino;
        assert_eq!(
            swap(Some(saved)),
            (ConditionalPlace::TargetChanged, Some(ino), None)
        );
    }
}

#[test]
fn a_swap_that_fails_never_drops_the_file() {
    let guard = approved();
    let s = SwapStep::LinkScratch.swap_into_place(&guard, Err(13));
    assert_eq!(s, SwapStep::Done(Err(13)));
    let s = SwapStep::Exchange.swap_into_place(&guard, Err(22));
    assert_eq!(s, SwapStep::Discard(Err(22)));
    assert_eq!(s.swap_into_place(&guard, Ok(None)), SwapStep::Done(Err(22)));
    let s = SwapStep::Exchange.swap_into_place(&guard, Err(ENOENT));
    assert_eq!(s, SwapStep::Discard(Ok(ConditionalPlace::TargetChanged)));
    let s = SwapStep::Look.swap_into_place(&guard, Err(5));
    assert_eq!(s, SwapStep::PutBack);
    let s = s.swap_into_place(&guard, Err(5));
    assert_eq!(s, SwapStep::Done(Err(5)), "the scratch name holds the file");
}

#[test]
fn a_folder_cloud_goes_on_counting() {
    let mut c = FolderCloud::open(
        "/cloud",
        &vec!["obj-3".into(), "obj-12.name".into(), "notes".into()],
    );
    assert_eq!(c.seed(), "obj-13");
    assert_eq!(c.upload(None), "obj-14");
    assert_eq!(c.upload(Some("obj-3")), "obj-3");
    assert_eq!(c.object("obj-3"), "/cloud/obj-3");
    assert_eq!(c.name_file("obj-3"), "/cloud/obj-3.name");
}

#[test]
fn a_folder_cloud_lists_its_objects_by_id() {
    let c = FolderCloud::open("/cloud", &Vec::new());
    let stored = |file: &str, name: Option<&str>| Stored {
        file: file.into(),
        size: 4,
        name: name.map(str::to_string),
    };
    assert_eq!(
        c.list(&vec![
            stored("obj-2", None),
            stored("obj-1.name", None),
            stored("obj-1", Some("a.txt")),
            stored("readme", None),
        ]),
        [
            Listed {
                id: "obj-1".into(),
                name: "a.txt".into(),
                size: 4
            },
            Listed {
                id: "obj-2".into(),
                name: "obj-2".into(),
                size: 4
            },
        ]
    );
}

fn words(s: &str) -> Vec<String> {
    s.split_whitespace().map(str::to_string).collect()
}

#[test]
fn the_daemon_reads_its_command_line() {
    let home = Some("/home/me".to_string());
    let run = Some("/run/user/1".to_string());
    assert_eq!(
        parse(&words("--mount /m"), &home, &run),
        Some(Args {
            mount: "/m".into(),
            cloud: "/home/me/.local/share/hydration/cloud".into(),
            socket: "/run/user/1/hydration-sync.sock".into(),
            debounce: 10_000_000_000,
        })
    );
    assert_eq!(
        parse(
            &words("--mount /m --cloud /c --socket /s --debounce-secs 3"),
            &None,
            &None
        ),
        Some(Args {
            mount: "/m".into(),
            cloud: "/c".into(),
            socket: "/s".into(),
            debounce: 3_000_000_000,
        })
    );
    assert_eq!(default_socket(&None), "/tmp/hydration-sync.sock");
}

#[test]
fn what_is_no_command_line_asks_for_usage() {
    for bad in [
        "",
        "--cloud /c",
        "-h",
        "--help",
        "--mount /m --what",
        "--mount /m --debounce-secs x",
        "--mount /m --debounce-secs",
        "--mount /m --mount",
    ] {
        assert_eq!(parse(&words(bad), &None, &None), None, "{bad:?} was read");
    }
}

#[test]
fn a_socket_with_a_long_path_is_refused() {
    assert_eq!(socket_refusal(&"x".repeat(100)), None);
    assert_eq!(
        socket_refusal(&"x".repeat(101)).unwrap(),
        "socket path is 101 bytes; the kernel limit is about 108. Pass a shorter --socket."
    );
    assert!(socket_refusal(&"\u{e9}".repeat(51)).is_some());
}

#[test]
fn the_control_program_hands_its_words_on() {
    assert_eq!(
        parse_control(&words("evict a b --socket /s c"), &None),
        Some(("/s".into(), "evict a b c".into()))
    );
    assert_eq!(
        parse_control(&words("status"), &Some("/run".into())),
        Some(("/run/hydration-sync.ctl".into(), "status".into()))
    );
    for bad in ["", "--socket", "--socket /s", "status -h", "--help"] {
        assert_eq!(parse_control(&words(bad), &None), None);
    }
    assert_eq!(default_control(&None), "/tmp/hydration-sync.ctl");
}
