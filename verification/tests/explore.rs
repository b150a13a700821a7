use dvcdbg::compat::err_compat::HalI2cErrorKind;
use dvcdbg::compat::util::BitFlags;
use dvcdbg::compat::I2cCompat;
use dvcdbg::compat::i2c_compat::LoggedBus;
use dvcdbg::error::{BitFlagsError, ErrorKind, ExecutorError, ExplorerError, I2cError};
use dvcdbg::explore::explorer::{exec_log_cmd, CmdExecutor, CmdNode, Explorer, PrefixExecutor};
use dvcdbg::explore::runner::{is_runnable, one_topological_explorer, pruning_explorer};

/// A bus on which the devices at `present` acknowledge every write, except
/// that the devices at `fragile` refuse writes of more than one byte.
struct MockBus {
    present: Vec<u8>,
    fragile: Vec<u8>,
    writes: Vec<(u8, Vec<u8>)>,
}

impl MockBus {
    fn new(present: &[u8]) -> Self {
        MockBus { present: present.to_vec(), fragile: Vec::new(), writes: Vec::new() }
    }

    /// The writes that followed the 117 writes of the bus scan.
    fn after_scan(&self) -> &[(u8, Vec<u8>)] {
        &self.writes[117..]
    }
}

impl I2cCompat for MockBus {
    type Error = HalI2cErrorKind;

    fn write(&mut self, addr: u8, bytes: &[u8]) -> Result<(), Self::Error> {
        self.writes.push((addr, bytes.to_vec()));
        if self.present.contains(&addr) && !(self.fragile.contains(&addr) && bytes.len() > 1) {
            Ok(())
        } else {
            Err(HalI2cErrorKind::NoAcknowledge)
        }
    }

    fn read(&mut self, _addr: u8, _buffer: &mut [u8]) -> Result<(), Self::Error> {
        Ok(())
    }

    fn write_read(&mut self, _addr: u8, _bytes: &[u8], _buffer: &mut [u8]) -> Result<(), Self::Error> {
        Ok(())
    }
}

static CHAIN: [CmdNode; 3] = [
    CmdNode { bytes: &[0xAE], deps: &[] },
    CmdNode { bytes: &[0xD5, 0x80], deps: &[0] },
    CmdNode { bytes: &[0xAF], deps: &[1] },
];

static DIAMOND: [CmdNode; 4] = [
    CmdNode { bytes: &[0x01], deps: &[] },
    CmdNode { bytes: &[0x02], deps: &[0] },
    CmdNode { bytes: &[0x03], deps: &[0] },
    CmdNode { bytes: &[0x04], deps: &[1, 2] },
];

static CYCLE: [CmdNode; 3] = [
    CmdNode { bytes: &[0x10], deps: &[1] },
    CmdNode { bytes: &[0x11], deps: &[0] },
    CmdNode { bytes: &[0x12], deps: &[] },
];

static BAD_DEP: [CmdNode; 2] = [
    CmdNode { bytes: &[0x10], deps: &[] },
    CmdNode { bytes: &[0x11], deps: &[5] },
];

fn sorted<const N: usize, const M: usize>(explorer: &Explorer<N, M>, failed: &BitFlags) -> (Vec<usize>, bool) {
    let mut it = explorer.topological_iter(failed).ok().unwrap();
    let mut order = Vec::new();
    while let Some(i) = it.next() {
        order.push(i);
    }
    (order, it.is_cycle_detected())
}

#[test]
fn topological_order_of_a_chain() {
    let explorer = Explorer::<3, 2>::new(&CHAIN);
    assert_eq!(sorted(&explorer, &BitFlags::new()), (vec![0, 1, 2], false));
}

#[test]
fn topological_order_puts_dependencies_first() {
    let explorer = Explorer::<4, 4>::new(&DIAMOND);
    let (order, cycle) = sorted(&explorer, &BitFlags::new());
    assert!(!cycle);
    assert_eq!(order, vec![0, 2, 1, 3]);
    for (k, &v) in order.iter().enumerate() {
        for &d in DIAMOND[v].deps {
            assert!(order[..k].contains(&(d as usize)));
        }
    }
}

#[test]
fn cycle_is_detected_after_exhaustion() {
    let explorer = Explorer::<3, 2>::new(&CYCLE);
    assert_eq!(sorted(&explorer, &BitFlags::new()), (vec![2], true));
}

#[test]
fn failed_dependency_blocks_its_dependents() {
    let explorer = Explorer::<3, 2>::new(&CHAIN);
    let mut failed = BitFlags::new();
    failed.set(0).unwrap();
    assert_eq!(sorted(&explorer, &failed), (vec![], true));
}

#[test]
fn all_failed_means_nothing_to_do() {
    let explorer = Explorer::<3, 2>::new(&CHAIN);
    let mut failed = BitFlags::new();
    for i in 0..3 {
        failed.set(i).unwrap();
    }
    assert_eq!(sorted(&explorer, &failed), (vec![], false));
}

#[test]
fn iterator_build_errors() {
    let too_many = Explorer::<2, 2>::new(&CHAIN);
    assert!(matches!(too_many.topological_iter(&BitFlags::new()), Err(ExplorerError::TooManyCommands)));
    let bad_dep = Explorer::<2, 1>::new(&BAD_DEP);
    assert!(matches!(
        bad_dep.topological_iter(&BitFlags::new()),
        Err(ExplorerError::InvalidDependencyIndex)
    ));
    let small = Explorer::<3, 1>::new(&CHAIN);
    assert!(matches!(small.topological_iter(&BitFlags::new()), Err(ExplorerError::BufferOverflow)));
}

static PAIR: [CmdNode; 2] = [
    CmdNode { bytes: &[0x01], deps: &[] },
    CmdNode { bytes: &[0x02], deps: &[0] },
];

#[test]
fn slack_in_the_bounds_yields_each_node_once() {
    let explorer = Explorer::<2, 2>::new(&PAIR);
    assert_eq!(sorted(&explorer, &BitFlags::new()), (vec![0, 1], false));
    let explorer = Explorer::<5, 9>::new(&CHAIN);
    assert_eq!(sorted(&explorer, &BitFlags::new()), (vec![0, 1, 2], false));
}

#[test]
fn dependency_on_a_missing_command_is_refused() {
    let explorer = Explorer::<4, 4>::new(&BAD_DEP_IN_RANGE);
    assert!(matches!(explorer.topological_iter(&BitFlags::new()), Err(ExplorerError::InvalidDependencyIndex)));
}

static BAD_DEP_IN_RANGE: [CmdNode; 2] = [
    CmdNode { bytes: &[0x10], deps: &[] },
    CmdNode { bytes: &[0x11], deps: &[2] },
];

#[test]
fn runnable_graphs() {
    let none = BitFlags::new();
    assert!(is_runnable(&Explorer::<3, 2>::new(&CHAIN), &none));
    assert!(is_runnable(&Explorer::<4, 4>::new(&DIAMOND), &none));
    assert!(is_runnable(&Explorer::<2, 2>::new(&CHAIN), &none));
    assert!(is_runnable(&Explorer::<2, 1>::new(&BAD_DEP), &none));
    assert!(is_runnable(&Explorer::<3, 5>::new(&CHAIN), &none));
    assert!(is_runnable(&Explorer::<4, 0>::new(&CHAIN), &none));
    assert!(matches!(
        Explorer::<4, 0>::new(&CHAIN).topological_iter(&none),
        Err(ExplorerError::BufferOverflow)
    ));
    assert!(!is_runnable(&Explorer::<300, 4>::new(&CHAIN), &none));
    let mut all = BitFlags::new();
    for i in 0..3 {
        all.set(i).unwrap();
    }
    assert!(is_runnable(&Explorer::<3, 5>::new(&CHAIN), &all));
    let mut last = BitFlags::new();
    last.set(2).unwrap();
    assert!(is_runnable(&Explorer::<3, 1>::new(&CHAIN), &last));
    assert!(is_runnable(&Explorer::<3, 2>::new(&CHAIN), &last));
}

#[test]
fn explorer_max_cmd_len() {
    assert_eq!(Explorer::<3, 2>::new(&CHAIN).max_cmd_len(), 2);
    assert_eq!(Explorer::<1, 2>::new(&CHAIN).max_cmd_len(), 1);
    assert_eq!(Explorer::<0, 0>::new(&CHAIN).max_cmd_len(), 0);
}

#[test]
fn prefix_executor_sends_prefixed_command() {
    let mut bus = LoggedBus::new(MockBus::new(&[0x3C]));
    let mut ex = PrefixExecutor::<0, 4>::new(0x40, &[]);
    assert_eq!(ex.exec(&mut bus, 0x3C, &[0xAE, 0x01], &mut String::new()), Ok(()));
    assert_eq!(bus.bus.writes, vec![(0x3C, vec![0x40, 0xAE, 0x01])]);
}

#[test]
fn prefix_executor_initializes_each_device_once() {
    let mut bus = LoggedBus::new(MockBus::new(&[0x3C]));
    let mut ex = PrefixExecutor::<2, 8>::new(0x00, &[0xA8, 0x3F, 0x99]);
    assert_eq!(ex.exec(&mut bus, 0x3C, &[0xAE], &mut String::new()), Ok(()));
    assert_eq!(ex.exec(&mut bus, 0x3C, &[0xAF], &mut String::new()), Ok(()));
    assert_eq!(
        bus.bus.writes,
        vec![
            (0x3C, vec![]),
            (0x3C, vec![0x00, 0xA8, 0x00, 0x3F]),
            (0x3C, vec![0x00, 0xAE]),
            (0x3C, vec![0x00, 0xAF]),
        ]
    );
}

#[test]
fn prefix_executor_retries_once_then_reports() {
    let mut bus = LoggedBus::new(MockBus::new(&[]));
    let mut ex = PrefixExecutor::<1, 4>::new(0x00, &[0xA8]);
    assert_eq!(
        ex.exec(&mut bus, 0x3C, &[0xAE], &mut String::new()),
        Err(ExecutorError::I2cError(ErrorKind::I2c(I2cError::Nack)))
    );
    // two probe tries, then two tries of the command (the device never answered)
    assert_eq!(bus.bus.writes.len(), 4);
    assert_eq!(bus.bus.writes[2], (0x3C, vec![0x00, 0xAE]));
}

#[test]
fn prefix_executor_reports_its_progress() {
    let mut bus = LoggedBus::new(MockBus::new(&[]));
    let mut ex = PrefixExecutor::<1, 4>::new(0x00, &[0xA8]);
    let mut out = String::new();
    let _ = ex.exec(&mut bus, 0x3C, &[0xAE], &mut out);
    assert_eq!(
        out,
        "[Info] I2C initializing for 3C...\n\
         [I2C retry error] I2c: Nack\n\
         [I2C retry error] I2c: Nack\n\
         [I2C retry error] I2c: Nack\n\
         [I2C retry error] I2c: Nack\n"
    );
    let mut bus = LoggedBus::new(MockBus::new(&[0x3C]));
    let mut ex = PrefixExecutor::<1, 4>::new(0x00, &[0xA8]);
    let mut out = String::new();
    assert_eq!(ex.exec(&mut bus, 0x3C, &[0xAE], &mut out), Ok(()));
    assert_eq!(
        out,
        "[Info] I2C initializing for 3C...\n\
         [Info] Device found at 3C, sending init sequence...\n\
         [Info] I2C initialized for 3C\n"
    );
}

#[test]
fn exec_log_cmd_reports_each_command() {
    let mut bus = LoggedBus::new(MockBus::new(&[0x3C]));
    let mut ex = PrefixExecutor::<0, 4>::new(0x00, &[]);
    let mut out = String::new();
    assert_eq!(exec_log_cmd::<_, _, 4>(&mut bus, &mut ex, &mut out, 0x3C, &[0xAE, 0x0F], 7), Ok(()));
    assert_eq!(out, "[explorer] Sending node 7 bytes: [AE, 0F] ...\n[explorer] OK\n");
    let mut out = String::new();
    let _ = exec_log_cmd::<_, _, 4>(&mut bus, &mut ex, &mut out, 0x3D, &[0xAE], 12);
    assert_eq!(
        out,
        "[explorer] Sending node 12 bytes: [AE] ...\n\
         [I2C retry error] I2c: Nack\n\
         [I2C retry error] I2c: Nack\n\
         [explorer] FAILED: I2cError: I2c: Nack\n"
    );
}

#[test]
fn prefix_executor_errors() {
    let mut bus = LoggedBus::new(MockBus::new(&[0x3C]));
    let mut ex = PrefixExecutor::<0, 2>::new(0x00, &[]);
    assert_eq!(
        ex.exec(&mut bus, 0x80, &[0xAE], &mut String::new()),
        Err(ExecutorError::BitFlags(BitFlagsError::IndexOutOfBounds { idx: 128, max: 127 }))
    );
    assert_eq!(ex.exec(&mut bus, 0x3C, &[0xAE, 0x01], &mut String::new()), Err(ExecutorError::BufferOverflow));
    let mut ex = PrefixExecutor::<3, 4>::new(0x00, &[1, 2, 3]);
    assert_eq!(ex.exec(&mut bus, 0x3C, &[0xAE], &mut String::new()), Err(ExecutorError::BufferOverflow));
    assert!(bus.bus.writes.is_empty());
}

#[test]
fn exec_log_cmd_maps_errors() {
    let mut bus = LoggedBus::new(MockBus::new(&[0x3C]));
    let mut ex = PrefixExecutor::<0, 2>::new(0x00, &[]);
    assert_eq!(exec_log_cmd::<_, _, 2>(&mut bus, &mut ex, &mut String::new(), 0x3C, &[0xAE], 0), Ok(()));
    assert_eq!(
        exec_log_cmd::<_, _, 2>(&mut bus, &mut ex, &mut String::new(), 0x3C, &[0xAE, 0x00], 1),
        Err(ExplorerError::BufferOverflow)
    );
    assert_eq!(
        exec_log_cmd::<_, _, 2>(&mut bus, &mut ex, &mut String::new(), 0x3D, &[0xAE], 2),
        Err(ExplorerError::ExecutionFailed(ErrorKind::I2c(I2cError::Nack)))
    );
}

#[test]
fn one_topological_explorer_sends_in_order() {
    let explorer = Explorer::<3, 2>::new(&CHAIN);
    let mut bus = LoggedBus::new(MockBus::new(&[0x3C, 0x3D]));
    let mut report = String::new();
    assert_eq!(one_topological_explorer::<_, 3, 0, 4, 2>(&explorer, &mut bus, &mut report, 0x00), Ok(()));
    assert!(report.starts_with(
        "[exprore] Attempting to get 1 init seq ...\r\nScanning I2C bus with a 00 ...\nFound device @ 3C\n"
    ));
    assert!(report.contains("[explorer] Obtained one topological sort. Executing on 3C...\r\n"));
    assert!(report.contains("[explorer] Sending node 0 bytes: [AE] ...\n"));
    assert!(report.ends_with("[explorer] Single sequence execution complete for 3C.\r\n"));
    assert_eq!(
        bus.bus.after_scan(),
        &[
            (0x3C, vec![0x00, 0xAE]),
            (0x3C, vec![0x00, 0xD5, 0x80]),
            (0x3C, vec![0x00, 0xAF]),
        ]
    );
}

#[test]
fn one_topological_explorer_reports_cycle() {
    let explorer = Explorer::<3, 2>::new(&CYCLE);
    let mut bus = LoggedBus::new(MockBus::new(&[0x3C]));
    let mut report = String::new();
    assert_eq!(
        one_topological_explorer::<_, 3, 0, 4, 2>(&explorer, &mut bus, &mut report, 0x00),
        Err(ExplorerError::DependencyCycle)
    );
    assert!(report.ends_with("[error] Dependency cycle detected!\r\n"));
    assert_eq!(bus.bus.after_scan(), &[(0x3C, vec![0x00, 0x12])]);
}

#[test]
fn one_topological_explorer_errors() {
    let explorer = Explorer::<3, 2>::new(&CHAIN);
    let mut bus = LoggedBus::new(MockBus::new(&[]));
    assert_eq!(
        one_topological_explorer::<_, 3, 0, 4, 2>(&explorer, &mut bus, &mut String::new(), 0x00),
        Err(ExplorerError::NoValidAddressesFound)
    );
    let mut bus = LoggedBus::new(MockBus::new(&[0x3C]));
    assert_eq!(
        one_topological_explorer::<_, 3, 0, 2, 2>(&explorer, &mut bus, &mut String::new(), 0x00),
        Err(ExplorerError::BufferOverflow)
    );
    let bad = Explorer::<2, 1>::new(&BAD_DEP);
    let mut bus = LoggedBus::new(MockBus::new(&[0x3C]));
    assert_eq!(
        one_topological_explorer::<_, 2, 0, 4, 1>(&bad, &mut bus, &mut String::new(), 0x00),
        Err(ExplorerError::InvalidDependencyIndex)
    );
}

#[test]
fn pruning_explorer_batches_every_device() {
    let explorer = Explorer::<3, 2>::new(&CHAIN);
    let mut bus = LoggedBus::new(MockBus::new(&[0x3C, 0x3D]));
    let mut report = String::new();
    assert_eq!(pruning_explorer::<_, 3, 8, 2>(&explorer, &mut bus, &mut report, 0x00), Ok(()));
    assert!(report.starts_with("Scanning I2C bus with a 00 ...\nFound device @ 3C\n"));
    assert!(report.contains("[I] RUN ON 3C\r\n[I] OK batched @ 3C (5 bytes)\r\n"));
    assert!(report.contains("[I] RUN ON 3D\r\n[I] OK batched @ 3D (5 bytes)\r\n"));
    assert!(report.ends_with("[I] All valid addresses explored. Done.\r\n"));
    assert_eq!(
        bus.bus.after_scan(),
        &[
            (0x3C, vec![0x00, 0xAE, 0xD5, 0x80, 0xAF]),
            (0x3D, vec![0x00, 0xAE, 0xD5, 0x80, 0xAF]),
        ]
    );
}

#[test]
fn pruning_explorer_prunes_after_a_failed_batch() {
    let explorer = Explorer::<3, 2>::new(&CHAIN);
    let mut bus = LoggedBus::new(MockBus::new(&[0x3C, 0x3D]));
    bus.bus.fragile = vec![0x3C];
    let mut report = String::new();
    assert_eq!(
        pruning_explorer::<_, 3, 8, 2>(&explorer, &mut bus, &mut report, 0x00),
        Err(ExplorerError::ExecutionFailed(ErrorKind::I2c(I2cError::Nack)))
    );
    assert!(report.contains("[W] Failed batched @ 3C, pruning nodes\r\n"));
    assert!(report.contains("[I] RUN ON 3D\r\n[I] OK batched @ 3D (1 bytes)\r\n"));
    assert_eq!(
        bus.bus.after_scan(),
        &[(0x3C, vec![0x00, 0xAE, 0xD5, 0x80, 0xAF]), (0x3D, vec![0x00])]
    );
}

#[test]
fn pruning_explorer_errors() {
    let explorer = Explorer::<3, 2>::new(&CHAIN);
    let mut bus = LoggedBus::new(MockBus::new(&[0x3C]));
    let mut report = String::new();
    assert_eq!(
        pruning_explorer::<_, 3, 4, 2>(&explorer, &mut bus, &mut report, 0x00),
        Err(ExplorerError::BufferOverflow)
    );
    assert!(report.ends_with("[I] RUN ON 3C\r\n[E] Batch buffer overflow (need 5 bytes)\r\n"));
    let mut bus = LoggedBus::new(MockBus::new(&[0x3C]));
    assert_eq!(
        pruning_explorer::<_, 3, 0, 2>(&explorer, &mut bus, &mut String::new(), 0x00),
        Err(ExplorerError::BufferOverflow)
    );
    let cyclic = Explorer::<3, 2>::new(&CYCLE);
    let mut bus = LoggedBus::new(MockBus::new(&[0x3C]));
    let mut report = String::new();
    assert_eq!(
        pruning_explorer::<_, 3, 8, 2>(&cyclic, &mut bus, &mut report, 0x00),
        Err(ExplorerError::DependencyCycle)
    );
    assert!(report.ends_with("[E] Dependency cycle detected. Aborting.\r\n"));
    let mut bus = LoggedBus::new(MockBus::new(&[]));
    assert_eq!(
        pruning_explorer::<_, 3, 8, 2>(&explorer, &mut bus, &mut String::new(), 0x00),
        Err(ExplorerError::NoValidAddressesFound)
    );
}

#[test]
fn pruning_explorer_skips_devices_it_cannot_order_for() {
    let bad = Explorer::<2, 1>::new(&BAD_DEP);
    let mut bus = LoggedBus::new(MockBus::new(&[0x3C]));
    assert_eq!(pruning_explorer::<_, 2, 8, 1>(&bad, &mut bus, &mut String::new(), 0x00), Ok(()));
    assert!(bus.bus.after_scan().is_empty());
}

#[test]
fn prefix_executor_without_room_overflows() {
    let mut bus = LoggedBus::new(MockBus::new(&[0x3C]));
    let mut ex = PrefixExecutor::<0, 0>::new(0x40, &[]);
    assert_eq!(ex.exec(&mut bus, 0x3C, &[0xAE], &mut String::new()), Err(ExecutorError::BufferOverflow));
    assert!(bus.bus.writes.is_empty());
    let mut ex = PrefixExecutor::<1, 0>::new(0x40, &[0xA8]);
    assert_eq!(ex.exec(&mut bus, 0x3C, &[0xAE], &mut String::new()), Err(ExecutorError::BufferOverflow));
    assert!(bus.bus.writes.is_empty());
}

#[test]
fn one_topological_explorer_without_room_overflows() {
    let explorer = Explorer::<3, 2>::new(&CHAIN);
    let mut bus = LoggedBus::new(MockBus::new(&[0x3C]));
    assert_eq!(
        one_topological_explorer::<_, 3, 0, 0, 2>(&explorer, &mut bus, &mut String::new(), 0x00),
        Err(ExplorerError::BufferOverflow)
    );
    assert!(bus.bus.after_scan().is_empty());
}
