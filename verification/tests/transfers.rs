use hydration_client::transfers::{Direction, Reader, Running, Transfers, MAX_ROWS};

#[test]
fn retries_count_traffic_without_claiming_confirmation_and_errors_drop_rows() {
    let mut m = Transfers::new();
    m.snapshot_at(0);
    let r = m.begin("a.txt", Direction::Upload, 100, 0, 100);
    m.add(&r, 80);
    m.move_to(&r, 0);
    m.add(&r, 60);
    let s = m.snapshot_at(1000);
    assert_eq!(s.uploaded, 140);
    assert_eq!(s.upload_rate, 140);
    assert_eq!(s.active[0].position, 60);
    assert_eq!(s.active[0].confirmed, 0);
    m.confirm_to(&r, 40);
    assert_eq!(m.snapshot_at(1100).active[0].confirmed, 40);
    m.end(r);
    assert_eq!(m.snapshot_at(7000).count, 0);
    assert_eq!(m.snapshot_at(13000).upload_rate, 0);
}

#[test]
fn actual_reader_counts_partial_io_and_keeps_ranges_distinct() {
    let mut m = Transfers::new();
    let r = m.begin("a.txt", Direction::Download, 4, 8, 20);
    let reader = Reader {
        transfer: Some(Running {
            id: r.id,
            direction: r.direction,
        }),
    };
    reader.read(&mut m, 2);
    let s = m.snapshot_at(0);
    assert_eq!(s.downloaded, 2);
    assert_eq!(s.active[0].offset, 8);
    assert_eq!(s.active[0].total, 4);
    assert_eq!(s.active[0].object_size, 20);
}

#[test]
fn a_reader_without_a_transfer_counts_nothing() {
    let mut m = Transfers::new();
    Reader { transfer: None }.read(&mut m, 2);
    assert_eq!(m.snapshot_at(0).downloaded, 0);
}

#[test]
fn a_position_never_passes_the_end() {
    let mut m = Transfers::new();
    let r = m.begin("a.txt", Direction::Upload, 10, 0, 10);
    m.add(&r, 80);
    let s = m.snapshot_at(0);
    assert_eq!(s.active[0].position, 10);
    assert_eq!(s.active[0].bytes, 80);
}

#[test]
fn only_so_many_rows_are_shown_and_all_are_counted() {
    let mut m = Transfers::new();
    for i in 0..MAX_ROWS + 5 {
        m.begin(&format!("f{i}"), Direction::Download, 1, 0, 1);
    }
    let s = m.snapshot_at(0);
    assert_eq!(s.active.len(), MAX_ROWS);
    assert_eq!(s.count, MAX_ROWS + 5);
}

#[test]
fn a_name_stands_for_its_object() {
    let mut m = Transfers::new();
    m.name("id-1", "Docs/a.txt");
    assert_eq!(m.path("id-1"), "Docs/a.txt");
    assert_ne!(m.path("id-2"), "Docs/a.txt");
}

#[test]
fn a_number_is_given_to_one_transfer_only() {
    let mut m = Transfers::new();
    let mut given = Vec::new();
    for round in 0..5 {
        let a = m.begin("a", Direction::Upload, 1, 0, 1);
        let b = m.begin("b", Direction::Download, 1, 0, 1);
        given.push(a.id);
        given.push(b.id);
        m.add(&a, 1);
        m.end(a);
        if round % 2 == 0 {
            m.end(b);
        }
    }
    let before = given.len();
    given.sort();
    given.dedup();
    assert_eq!(given.len(), before);
    assert_eq!(m.snapshot_at(0).count, 2);
}

#[test]
fn ending_a_transfer_takes_exactly_its_row() {
    let mut m = Transfers::new();
    let kept = m.begin("kept", Direction::Upload, 9, 0, 9);
    m.add(&kept, 4);
    let before = m.snapshot_at(0);
    let gone = m.begin("gone", Direction::Download, 5, 1, 6);
    let row = &m.snapshot_at(0).active[1];
    assert_eq!((row.path.as_str(), row.total, row.offset, row.object_size), ("gone", 5, 1, 6));
    assert_eq!((row.bytes, row.position, row.confirmed), (0, 0, 0));
    m.end(gone);
    assert_eq!(m.snapshot_at(0), before);
}
