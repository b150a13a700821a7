use dvcdbg::compat::err_compat::HalI2cErrorKind;
use dvcdbg::compat::I2cCompat;
use dvcdbg::error::{ErrorKind, I2cError};
use dvcdbg::logger::{Logger, NullLogger};
use dvcdbg::explorer::{
    CmdExecutor, CmdNode, ExecutorError, Explorer, ExplorerError, PermutationIter,
};

struct NoBus;

impl I2cCompat for NoBus {
    type Error = HalI2cErrorKind;
    fn write(&mut self, _addr: u8, _bytes: &[u8]) -> Result<(), Self::Error> {
        Ok(())
    }
    fn read(&mut self, _addr: u8, _buffer: &mut [u8]) -> Result<(), Self::Error> {
        Ok(())
    }
    fn write_read(&mut self, _addr: u8, _bytes: &[u8], _buffer: &mut [u8]) -> Result<(), Self::Error> {
        Ok(())
    }
}

/// Accepts every command at the addresses in `answering`.
struct MockExec {
    answering: Vec<u8>,
    sent: Vec<(u8, Vec<u8>)>,
}

impl CmdExecutor<NoBus, 8> for MockExec {
    fn exec<L: Logger<8>>(
        &mut self,
        _i2c: &mut NoBus,
        addr: u8,
        cmd: &[u8],
        _logger: &mut L,
    ) -> Result<(), ExecutorError> {
        self.sent.push((addr, cmd.to_vec()));
        if self.answering.contains(&addr) {
            Ok(())
        } else {
            Err(ExecutorError::I2cError(ErrorKind::I2c(I2cError::Nack)))
        }
    }
}

static CHAIN: [CmdNode; 3] = [
    CmdNode { bytes: &[0xAE], deps: &[] },
    CmdNode { bytes: &[0xD5, 0x80], deps: &[0] },
    CmdNode { bytes: &[0xAF], deps: &[1] },
];

static DIAMOND: [CmdNode; 4] = [
    CmdNode { bytes: &[1], deps: &[] },
    CmdNode { bytes: &[2], deps: &[0] },
    CmdNode { bytes: &[3], deps: &[0] },
    CmdNode { bytes: &[4, 4, 4], deps: &[1, 2] },
];

static CYCLE: [CmdNode; 2] = [
    CmdNode { bytes: &[1], deps: &[1] },
    CmdNode { bytes: &[2], deps: &[0] },
];

static BAD_DEP: [CmdNode; 2] = [
    CmdNode { bytes: &[1], deps: &[] },
    CmdNode { bytes: &[2], deps: &[2] },
];

static CROWDED: [CmdNode; 2] = [
    CmdNode { bytes: &[1], deps: &[] },
    CmdNode { bytes: &[2], deps: &[0, 0, 0] },
];

static SINGLE: [CmdNode; 1] = [CmdNode { bytes: &[0x55, 0x66], deps: &[] }];

#[test]
fn legacy_executor_errors_become_explorer_errors() {
    assert_eq!(
        ExplorerError::from(ExecutorError::I2cError(ErrorKind::Other)),
        ExplorerError::ExecutionFailed
    );
    assert_eq!(ExplorerError::from(ExecutorError::ExecFailed), ExplorerError::ExecutionFailed);
    assert_eq!(ExplorerError::from(ExecutorError::BufferOverflow), ExplorerError::BufferOverflow);
}

#[test]
fn max_cmd_len_counts_the_prefix() {
    assert_eq!(Explorer::<3> { sequence: &CHAIN }.max_cmd_len(), 3);
    assert_eq!(Explorer::<1> { sequence: &CHAIN }.max_cmd_len(), 2);
    assert_eq!(Explorer::<4> { sequence: &DIAMOND }.max_cmd_len(), 4);
}

#[test]
fn one_sort_orders_dependencies_first() {
    let e = Explorer::<3> { sequence: &CHAIN };
    let (seqs, lens) = e.get_one_topological_sort_buf::<4>(&[false; 3]).ok().unwrap();
    assert_eq!(seqs, vec![vec![0xAE], vec![0xD5, 0x80], vec![0xAF]]);
    assert_eq!(lens, vec![1, 2, 1]);

    let e = Explorer::<4> { sequence: &DIAMOND };
    let (seqs, lens) = e.get_one_topological_sort_buf::<4>(&[false; 4]).ok().unwrap();
    assert_eq!(seqs, vec![vec![1], vec![3], vec![2], vec![4, 4, 4]]);
    assert_eq!(lens, vec![1, 1, 1, 3]);
}

#[test]
fn one_sort_skips_failed_commands() {
    let e = Explorer::<3> { sequence: &CHAIN };
    let (seqs, _) = e.get_one_topological_sort_buf::<4>(&[false, false, true]).ok().unwrap();
    assert_eq!(seqs, vec![vec![0xAE], vec![0xD5, 0x80]]);
    // a live command whose dependency failed can never run
    assert_eq!(
        e.get_one_topological_sort_buf::<4>(&[false, true, false]).err(),
        Some(ExplorerError::DependencyCycle)
    );
}

#[test]
fn one_sort_errors() {
    let e = Explorer::<2> { sequence: &CHAIN };
    assert_eq!(e.get_one_topological_sort_buf::<4>(&[false; 2]).err(), Some(ExplorerError::BufferOverflow));
    let e = Explorer::<2> { sequence: &BAD_DEP };
    assert_eq!(
        e.get_one_topological_sort_buf::<4>(&[false; 2]).err(),
        Some(ExplorerError::InvalidDependencyIndex)
    );
    let e = Explorer::<2> { sequence: &CYCLE };
    assert_eq!(e.get_one_topological_sort_buf::<4>(&[false; 2]).err(), Some(ExplorerError::DependencyCycle));
    let e = Explorer::<2> { sequence: &CROWDED };
    assert_eq!(e.get_one_topological_sort_buf::<4>(&[false; 2]).err(), Some(ExplorerError::BufferOverflow));
    let e = Explorer::<4> { sequence: &DIAMOND };
    assert_eq!(e.get_one_topological_sort_buf::<2>(&[false; 4]).err(), Some(ExplorerError::BufferOverflow));
}

fn next_perm<'a, const N: usize>(it: &mut PermutationIter<'a, N>) -> Option<Vec<&'a [u8]>> {
    loop {
        if let Some(r) = it.next_step() {
            return r;
        }
    }
}

#[test]
fn permutation_iter_checks_the_graph() {
    let e = Explorer::<2> { sequence: &CHAIN };
    assert!(matches!(PermutationIter::new(&e), Err(ExplorerError::TooManyCommands)));
    let e = Explorer::<2> { sequence: &CYCLE };
    assert!(matches!(PermutationIter::new(&e), Err(ExplorerError::DependencyCycle)));
    let e = Explorer::<2> { sequence: &BAD_DEP };
    assert!(matches!(PermutationIter::new(&e), Err(ExplorerError::InvalidDependencyIndex)));
}

#[test]
fn permutation_iter_yields_ordered_commands() {
    let e = Explorer::<3> { sequence: &CHAIN };
    let mut it = PermutationIter::new(&e).ok().unwrap();
    let first = next_perm(&mut it).unwrap();
    assert_eq!(first, vec![&[0xAEu8][..], &[0xD5, 0x80][..], &[0xAF][..]]);

    let e = Explorer::<1> { sequence: &SINGLE };
    let mut it = PermutationIter::new(&e).ok().unwrap();
    assert_eq!(next_perm(&mut it), Some(vec![&[0x55u8, 0x66][..]]));
    assert_eq!(next_perm(&mut it), None);
    assert_eq!(next_perm(&mut it), None);
}

static PAIR: [CmdNode; 2] = [
    CmdNode { bytes: &[0xA0], deps: &[] },
    CmdNode { bytes: &[0xB0], deps: &[] },
];

static BACKWARDS: [CmdNode; 2] = [
    CmdNode { bytes: &[0xA0], deps: &[1] },
    CmdNode { bytes: &[0xB0], deps: &[] },
];

#[test]
fn permutation_iter_yields_each_order_once() {
    let e = Explorer::<2> { sequence: &PAIR };
    let mut it = PermutationIter::new(&e).ok().unwrap();
    assert_eq!(next_perm(&mut it), Some(vec![&[0xA0u8][..], &[0xB0][..]]));
    assert_eq!(next_perm(&mut it), Some(vec![&[0xB0u8][..], &[0xA0][..]]));
    assert_eq!(next_perm(&mut it), None);
    assert_eq!(next_perm(&mut it), None);

    let e = Explorer::<4> { sequence: &DIAMOND };
    let mut it = PermutationIter::new(&e).ok().unwrap();
    let mut count = 0;
    while next_perm(&mut it).is_some() {
        count += 1;
    }
    assert_eq!(count, 2);
}

#[test]
fn permutation_iter_puts_a_later_dependency_first() {
    let e = Explorer::<2> { sequence: &BACKWARDS };
    let mut it = PermutationIter::new(&e).ok().unwrap();
    assert_eq!(next_perm(&mut it), Some(vec![&[0xB0u8][..], &[0xA0][..]]));
    assert_eq!(next_perm(&mut it), None);
}

#[test]
fn explore_finds_answering_addresses() {
    let e = Explorer::<1> { sequence: &SINGLE };
    let (mut progress, mut it) = e.explore_begin().ok().unwrap();
    let mut bus = NoBus;
    let mut exec = MockExec { answering: vec![0x50, 0x3C, 0x02], sent: Vec::new() };
    while let Some(order) = next_perm(&mut it) {
        let all = e.explore_order(&mut progress, &mut bus, &mut exec, &mut NullLogger, &order).unwrap();
        assert!(!all);
    }
    assert_eq!(progress.tested_count(), 1);
    // every scanned address was tried once with the single command
    assert_eq!(exec.sent.len(), 117);
    let result = Explorer::<1>::explore_end(progress).ok().unwrap();
    assert_eq!(result.found_addrs.as_slice(), &[0x3C, 0x50]);
    assert_eq!(result.permutations_tested, 1);
}

#[test]
fn explore_without_answer_finds_nothing() {
    let e = Explorer::<1> { sequence: &SINGLE };
    let (mut progress, mut it) = e.explore_begin().ok().unwrap();
    let mut bus = NoBus;
    let mut exec = MockExec { answering: vec![], sent: Vec::new() };
    while let Some(order) = next_perm(&mut it) {
        e.explore_order(&mut progress, &mut bus, &mut exec, &mut NullLogger, &order).unwrap();
    }
    assert!(matches!(Explorer::<1>::explore_end(progress), Err(ExplorerError::NoValidAddressesFound)));
}

struct Lines(Vec<String>);

impl Logger<8> for Lines {
    fn log_info(&mut self, msg: &str) {
        self.0.push(msg.to_string());
    }
    fn log_warning(&mut self, msg: &str) {
        self.0.push(msg.to_string());
    }
    fn log_error(&mut self, msg: &str) {
        self.0.push(msg.to_string());
    }
}

#[test]
fn explore_runs_every_order() {
    let e = Explorer::<1> { sequence: &SINGLE };
    let mut bus = NoBus;
    let mut exec = MockExec { answering: vec![0x50, 0x3C, 0x02], sent: Vec::new() };
    let mut log = Lines(Vec::new());
    let result = e.explore::<_, _, _, 8>(&mut bus, &mut exec, &mut log).ok().unwrap();
    assert_eq!(result.found_addrs.as_slice(), &[0x3C, 0x50]);
    assert_eq!(result.permutations_tested, 1);
    assert_eq!(log.0.len(), 2 + 115);
    assert_eq!(log.0[0], "[explorer] Starting permutation exploration...");
    assert_eq!(log.0[1], "[explorer] Execution failed for addr 0x03: I2cError(I2c(Nack))\n");
    assert_eq!(log.0[116], "[explorer] Exploration complete. 2 addresses found across 1 permutations.\n");
}

#[test]
fn explore_without_commands_says_so() {
    static EMPTY: [CmdNode; 0] = [];
    let e = Explorer::<2> { sequence: &EMPTY };
    let mut bus = NoBus;
    let mut exec = MockExec { answering: vec![0x3C], sent: Vec::new() };
    let mut log = Lines(Vec::new());
    assert!(matches!(
        e.explore::<_, _, _, 8>(&mut bus, &mut exec, &mut log),
        Err(ExplorerError::NoValidAddressesFound)
    ));
    assert_eq!(log.0, vec!["[explorer] No commands provided.".to_string()]);
    assert!(exec.sent.is_empty());
}

#[test]
fn explore_begin_errors() {
    static EMPTY: [CmdNode; 0] = [];
    let e = Explorer::<2> { sequence: &EMPTY };
    assert!(matches!(e.explore_begin(), Err(ExplorerError::NoValidAddressesFound)));
    let e = Explorer::<2> { sequence: &CHAIN };
    assert!(matches!(e.explore_begin(), Err(ExplorerError::BufferOverflow)));
    let e = Explorer::<2> { sequence: &CYCLE };
    assert!(matches!(e.explore_begin(), Err(ExplorerError::DependencyCycle)));
}

#[test]
fn explore_stops_once_every_address_answers() {
    let e = Explorer::<1> { sequence: &SINGLE };
    let (mut progress, mut it) = e.explore_begin().ok().unwrap();
    let mut bus = NoBus;
    let mut exec = MockExec { answering: (0u8..128).collect(), sent: Vec::new() };
    let order = next_perm(&mut it).unwrap();
    assert!(e.explore_order(&mut progress, &mut bus, &mut exec, &mut NullLogger, &order).unwrap());
    let result = Explorer::<1>::explore_end(progress).ok().unwrap();
    assert_eq!(result.found_addrs.len(), 117);
}

#[test]
fn a_dependency_leaves_one_order() {
    static TWO: [CmdNode; 2] = [
        CmdNode { bytes: &[0xA0], deps: &[1] },
        CmdNode { bytes: &[0xB0], deps: &[] },
    ];
    let e = Explorer::<2> { sequence: &TWO };
    let mut it = PermutationIter::new(&e).ok().unwrap();
    let first = it.next_order().unwrap();
    assert_eq!(first, vec![&[0xB0u8][..], &[0xA0u8][..]]);
    assert!(it.next_order().is_none());
    assert!(it.next_order().is_none());
}

#[test]
fn independent_commands_give_every_order_once() {
    static FREE: [CmdNode; 3] = [
        CmdNode { bytes: &[1], deps: &[] },
        CmdNode { bytes: &[2], deps: &[] },
        CmdNode { bytes: &[3], deps: &[] },
    ];
    let e = Explorer::<3> { sequence: &FREE };
    let mut it = PermutationIter::new(&e).ok().unwrap();
    let mut seen: Vec<Vec<u8>> = Vec::new();
    while let Some(order) = it.next_order() {
        seen.push(order.iter().map(|b| b[0]).collect());
    }
    assert_eq!(
        seen,
        vec![vec![1, 2, 3], vec![1, 3, 2], vec![2, 1, 3], vec![2, 3, 1], vec![3, 1, 2], vec![3, 2, 1]]
    );
}
