use vhost::mem::static_mem::{
    clear_static_mems, flush_static_mems, static_mem_exports, SinkCall, StaticMemDescriptor,
    StaticMemSink, StaticMems,
};
use vhost::mem::static_snapshot::StaticMemRange;

#[derive(Default)]
struct CaptureSink {
    entries: Vec<CaptureEntry>,
    fail_at: Option<usize>,
}

struct CaptureEntry {
    path: String,
    width: usize,
    depth: usize,
    data: Vec<u8>,
    valid_ranges: Vec<StaticMemRange>,
}

impl StaticMemSink for CaptureSink {
    // The call log is ghost state, read only by proofs about verified
    // callers; this sink keeps the calls in `entries` instead.
    fn received(&self) -> vstd::seq::Seq<SinkCall> {
        vstd::seq::Seq::empty()
    }

    fn write_static_mem(
        &mut self,
        descriptor: &StaticMemDescriptor,
        data: &[u8],
        valid_ranges: &[StaticMemRange],
    ) -> Result<(), String> {
        if self.fail_at == Some(self.entries.len()) {
            return Err(format!("cannot export {}", descriptor.path));
        }
        self.entries.push(CaptureEntry {
            path: descriptor.path.clone(),
            width: descriptor.width,
            depth: descriptor.depth,
            data: data.to_vec(),
            valid_ranges: valid_ranges.to_vec(),
        });
        Ok(())
    }
}

fn entry<'a>(sink: &'a CaptureSink, path: &str) -> &'a CaptureEntry {
    sink.entries.iter().find(|entry| entry.path == path).unwrap()
}

fn targets(path: &str, width: usize, depth: usize, offset: usize, n: usize) -> Vec<(String, usize, usize, usize)> {
    (0..n).map(|i| (path.to_string(), width, depth, offset + i)).collect()
}

fn write_all(mems: &mut StaticMems, path: &str, width: usize, depth: usize, offset: usize, bytes: &[u8]) -> usize {
    mems.write_bytes(&targets(path, width, depth, offset, bytes.len()), bytes)
}

#[test]
fn flush_reports_instance_bytes_and_written_ranges() {
    let mut mems = StaticMems::new();
    mems.register_instance("dut.mem".to_string(), 4, 4);
    assert_eq!(3, write_all(&mut mems, "dut.mem", 4, 4, 2, &[1, 2, 3]));

    let mut sink = CaptureSink::default();
    flush_static_mems(&mems, &mut sink).unwrap();

    let entry = entry(&sink, "dut.mem");
    assert_eq!(4, entry.width);
    assert_eq!(4, entry.depth);
    assert_eq!(16, entry.data.len());
    assert_eq!(&[0, 0, 1, 2, 3, 0, 0, 0], &entry.data[..8]);
    assert_eq!(vec![StaticMemRange { offset: 2, len: 3 }], entry.valid_ranges);
}

#[test]
fn write_stops_at_the_end_of_the_instance() {
    let mut mems = StaticMems::new();
    mems.register_instance("dut.mem".to_string(), 4, 4);
    assert_eq!(2, write_all(&mut mems, "dut.mem", 4, 4, 14, &[1, 2, 3, 4]));
    assert_eq!(Some(2), mems.read_instance_locked("dut.mem", 4, 4, 15));
    assert_eq!(None, mems.read_instance_locked("dut.mem", 4, 4, 16));
}

#[test]
fn write_to_an_unregistered_instance_is_refused() {
    let mut mems = StaticMems::new();
    mems.register_instance("dut.mem".to_string(), 4, 4);
    assert!(!mems.write_instance_locked("dut.other", 4, 4, 0, 1));
    assert!(!mems.write_instance_locked("dut.mem", 4, 8, 0, 1));
    assert!(!mems.write_instance_locked("dut.mem", 2, 4, 0, 1));
    assert_eq!(None, mems.read_instance_locked("dut.other", 4, 4, 0));
}

#[test]
fn read_gives_back_the_last_write() {
    let mut mems = StaticMems::new();
    mems.register_instance("dut.mem".to_string(), 2, 2);
    assert!(mems.write_instance_locked("dut.mem", 2, 2, 1, 7));
    assert!(mems.write_instance_locked("dut.mem", 2, 2, 1, 9));
    assert_eq!(Some(9), mems.read_instance_locked("dut.mem", 2, 2, 1));
    assert_eq!(Some(0), mems.read_instance_locked("dut.mem", 2, 2, 0));
    assert_eq!(Some(0), mems.read_instance_locked("dut.mem", 2, 2, 3));
}

#[test]
fn write_leaves_other_instances_alone() {
    let mut mems = StaticMems::new();
    mems.register_instance("a".to_string(), 1, 4);
    mems.register_instance("b".to_string(), 1, 4);
    assert!(mems.write_instance_locked("a", 1, 4, 0, 5));
    assert_eq!(Some(0), mems.read_instance_locked("b", 1, 4, 0));
    assert_eq!(Some(5), mems.read_instance_locked("a", 1, 4, 0));
}

#[test]
fn register_twice_keeps_one_instance_and_its_bytes() {
    let mut mems = StaticMems::new();
    mems.register_instance("dut.mem".to_string(), 4, 1);
    assert!(mems.write_instance_locked("dut.mem", 4, 1, 3, 8));
    mems.register_instance("dut.mem".to_string(), 4, 1);
    assert_eq!(Some(8), mems.read_instance_locked("dut.mem", 4, 1, 3));

    let mut sink = CaptureSink::default();
    flush_static_mems(&mems, &mut sink).unwrap();
    assert_eq!(1, sink.entries.len());
    assert_eq!(vec![0, 0, 0, 8], sink.entries[0].data);
}

#[test]
fn same_path_with_another_geometry_is_another_instance() {
    let mut mems = StaticMems::new();
    mems.register_instance("dut.mem".to_string(), 4, 1);
    mems.register_instance("dut.mem".to_string(), 2, 2);
    assert!(mems.write_instance_locked("dut.mem", 2, 2, 0, 1));
    assert_eq!(Some(0), mems.read_instance_locked("dut.mem", 4, 1, 0));

    let mut sink = CaptureSink::default();
    flush_static_mems(&mems, &mut sink).unwrap();
    assert_eq!(2, sink.entries.len());
    assert_eq!(4, sink.entries[0].width);
    assert_eq!(2, sink.entries[1].width);
}

#[test]
fn flush_of_an_instance_never_written() {
    let mut mems = StaticMems::new();
    mems.register_instance("dut.mem".to_string(), 2, 3);
    let mut sink = CaptureSink::default();
    flush_static_mems(&mems, &mut sink).unwrap();
    assert_eq!(vec![0u8; 6], sink.entries[0].data);
    assert!(sink.entries[0].valid_ranges.is_empty());
}

#[test]
fn flush_stops_at_the_first_sink_error() {
    let mut mems = StaticMems::new();
    mems.register_instance("a".to_string(), 1, 1);
    mems.register_instance("b".to_string(), 1, 1);
    mems.register_instance("c".to_string(), 1, 1);
    let mut sink = CaptureSink { entries: vec![], fail_at: Some(1) };
    assert_eq!(Err("cannot export b".to_string()), flush_static_mems(&mems, &mut sink));
    assert_eq!(1, sink.entries.len());
    assert_eq!("a", sink.entries[0].path);
}

#[test]
fn flush_of_an_empty_store_calls_nothing() {
    let mems = StaticMems::new();
    let mut sink = CaptureSink { entries: vec![], fail_at: Some(0) };
    assert_eq!(Ok(()), flush_static_mems(&mems, &mut sink));
}

#[test]
fn clear_forgets_every_instance() {
    let mut mems = StaticMems::new();
    mems.register_instance("dut.mem".to_string(), 1, 1);
    clear_static_mems(&mut mems);
    assert!(!mems.write_instance_locked("dut.mem", 1, 1, 0, 1));
    let mut sink = CaptureSink::default();
    flush_static_mems(&mems, &mut sink).unwrap();
    assert!(sink.entries.is_empty());
}

#[test]
fn snapshot_is_independent_of_the_store() {
    let mut mems = StaticMems::new();
    mems.register_instance("dut.mem".to_string(), 1, 2);
    assert!(mems.write_instance_locked("dut.mem", 1, 2, 0, 4));
    let copy = mems.snapshot();
    assert!(mems.write_instance_locked("dut.mem", 1, 2, 1, 5));
    assert_eq!(Some(4), copy.read_instance_locked("dut.mem", 1, 2, 0));
    assert_eq!(Some(0), copy.read_instance_locked("dut.mem", 1, 2, 1));
    assert_eq!(Some(5), mems.read_instance_locked("dut.mem", 1, 2, 1));
}

#[test]
fn write_bytes_across_two_rows() {
    let mut mems = StaticMems::new();
    mems.register_instances(&vec![
        ("dut.arr[0]".to_string(), 4, 2),
        ("dut.arr[1]".to_string(), 4, 2),
    ]);
    let targets = vec![
        ("dut.arr[0]".to_string(), 4, 2, 6),
        ("dut.arr[0]".to_string(), 4, 2, 7),
        ("dut.arr[1]".to_string(), 4, 2, 0),
        ("dut.arr[1]".to_string(), 4, 2, 1),
    ];
    assert_eq!(4, mems.write_bytes(&targets, &[1, 2, 3, 4]));
    let exports = static_mem_exports(&mems);
    assert_eq!(2, exports.len());
    assert_eq!("dut.arr[0]", exports[0].descriptor.path);
    assert_eq!(vec![0, 0, 0, 0, 0, 0, 1, 2], exports[0].data);
    assert_eq!(vec![StaticMemRange { offset: 6, len: 2 }], exports[0].valid_ranges);
    assert_eq!(vec![3, 4, 0, 0, 0, 0, 0, 0], exports[1].data);
    assert_eq!(vec![StaticMemRange { offset: 0, len: 2 }], exports[1].valid_ranges);
}

#[test]
fn write_bytes_across_four_banks() {
    let mut mems = StaticMems::new();
    let banks = ["dut.sram.bank0.MEM", "dut.sram.bank1.MEM", "dut.sram.bank2.MEM", "dut.sram.bank3.MEM"];
    mems.register_instances(&banks.iter().map(|b| (b.to_string(), 4, 4)).collect());
    let targets: Vec<_> = (0..16).map(|i| (banks[i / 4].to_string(), 4, 4, i % 4)).collect();
    let data: Vec<u8> = (1..=16).collect();
    assert_eq!(16, mems.write_bytes(&targets, &data));

    let mut sink = CaptureSink::default();
    flush_static_mems(&mems, &mut sink).unwrap();
    assert_eq!(4, sink.entries.len());
    for (i, bank) in banks.iter().enumerate() {
        let first = 4 * i as u8 + 1;
        assert_eq!(&[first, first + 1, first + 2, first + 3], &entry(&sink, bank).data[..4]);
    }
}

#[test]
fn write_bytes_across_two_bank_rows() {
    let mut mems = StaticMems::new();
    mems.register_instances(&vec![
        ("dut.vbank.row0.MEM".to_string(), 8, 2),
        ("dut.vbank.row1.MEM".to_string(), 8, 2),
    ]);
    let targets = vec![
        ("dut.vbank.row0.MEM".to_string(), 8, 2, 14),
        ("dut.vbank.row0.MEM".to_string(), 8, 2, 15),
        ("dut.vbank.row1.MEM".to_string(), 8, 2, 0),
        ("dut.vbank.row1.MEM".to_string(), 8, 2, 1),
    ];
    assert_eq!(4, mems.write_bytes(&targets, &[1, 2, 3, 4]));

    let mut sink = CaptureSink::default();
    flush_static_mems(&mems, &mut sink).unwrap();
    assert_eq!(
        &[0, 0, 0, 0, 0, 0, 0, 0, 0, 0, 0, 0, 0, 0, 1, 2],
        &entry(&sink, "dut.vbank.row0.MEM").data[..16]
    );
    assert_eq!(&[3, 4, 0, 0], &entry(&sink, "dut.vbank.row1.MEM").data[..4]);
}

#[test]
fn write_bytes_stops_at_the_first_refused_byte() {
    let mut mems = StaticMems::new();
    mems.register_instance("a".to_string(), 1, 2);
    let targets = vec![
        ("a".to_string(), 1, 2, 0),
        ("missing".to_string(), 1, 2, 0),
        ("a".to_string(), 1, 2, 1),
    ];
    assert_eq!(1, mems.write_bytes(&targets, &[7, 8, 9]));
    assert_eq!(Some(7), mems.read_instance_locked("a", 1, 2, 0));
    assert_eq!(Some(0), mems.read_instance_locked("a", 1, 2, 1));
}

#[test]
fn read_bytes_stops_at_the_first_missing_byte() {
    let mut mems = StaticMems::new();
    mems.register_instance("a".to_string(), 1, 2);
    assert_eq!(2, write_all(&mut mems, "a", 1, 2, 0, &[5, 6]));
    let mut out = [9u8; 3];
    assert_eq!(2, mems.read_bytes(&targets("a", 1, 2, 0, 3), &mut out));
    assert_eq!([5, 6, 9], out);
    let mut all = [0u8; 2];
    assert_eq!(2, mems.read_bytes(&targets("a", 1, 2, 0, 2), &mut all));
    assert_eq!([5, 6], all);
}

#[test]
fn register_instances_skips_those_already_there() {
    let mut mems = StaticMems::new();
    mems.register_instances(&vec![
        ("a".to_string(), 1, 1),
        ("b".to_string(), 1, 1),
        ("a".to_string(), 1, 1),
    ]);
    assert_eq!(2, static_mem_exports(&mems).len());
}

#[test]
fn two_flushes_hand_over_the_same_calls() {
    let mut mems = StaticMems::new();
    mems.register_instance("a".to_string(), 2, 2);
    mems.register_instance("b".to_string(), 1, 3);
    assert_eq!(2, write_all(&mut mems, "a", 2, 2, 1, &[4, 5]));
    let mut first = CaptureSink::default();
    let mut second = CaptureSink::default();
    flush_static_mems(&mems, &mut first).unwrap();
    flush_static_mems(&mems, &mut second).unwrap();
    assert_eq!(first.entries.len(), second.entries.len());
    for (x, y) in first.entries.iter().zip(second.entries.iter()) {
        assert_eq!((&x.path, x.width, x.depth, &x.data, &x.valid_ranges), (&y.path, y.width, y.depth, &y.data, &y.valid_ranges));
    }
    assert_ne!(first.entries[0].path, first.entries[1].path);
}

#[test]
fn exports_match_what_reads_give() {
    let mut mems = StaticMems::new();
    mems.register_instance("dut.mem".to_string(), 4, 4);
    assert_eq!(3, write_all(&mut mems, "dut.mem", 4, 4, 2, &[1, 2, 3]));
    let exports = static_mem_exports(&mems);
    assert_eq!(4, exports[0].descriptor.width);
    assert_eq!(4, exports[0].descriptor.depth);
    for offset in 0..16 {
        assert_eq!(
            Some(exports[0].data[offset]),
            mems.read_instance_locked("dut.mem", 4, 4, offset)
        );
    }
    assert_eq!(vec![StaticMemRange { offset: 2, len: 3 }], exports[0].valid_ranges);
}

#[test]
fn read_bytes_gives_back_a_run_of_writes() {
    let mut mems = StaticMems::new();
    mems.register_instances(&vec![("a".to_string(), 2, 2), ("b".to_string(), 1, 2)]);
    let targets = vec![
        ("a".to_string(), 2, 2, 3),
        ("b".to_string(), 1, 2, 0),
        ("a".to_string(), 2, 2, 0),
        ("b".to_string(), 1, 2, 1),
    ];
    assert_eq!(4, mems.write_bytes(&targets, &[10, 20, 30, 40]));
    let mut out = [0u8; 4];
    assert_eq!(4, mems.read_bytes(&targets, &mut out));
    assert_eq!([10, 20, 30, 40], out);
}
