//! Exploration of the orders a command sequence can be sent in, device by
//! device, with commands whose dependencies are given by index.

use vstd::prelude::*;
use crate::compat::devices::{
    device_list, device_list_as_slice, device_list_is_empty, device_list_new, device_list_push,
};
use crate::compat::i2c_compat::I2cCompat;
use crate::compat::text::{decimal_text, push_byte_hex, push_decimal};
use crate::logger::Logger;
use crate::error::ErrorKind;
use crate::scanner::{I2C_SCAN_ADDR_END, I2C_SCAN_ADDR_START};

verus! {

/// Errors that can occur during exploration of command sequences.
#[derive(Clone, Copy, Debug, PartialEq, Eq, Structural)]
pub enum ExplorerError {
    /// The provided sequence contained more commands than supported by the capacity N.
    TooManyCommands,
    /// The command dependency graph contains a cycle.
    DependencyCycle,
    /// No valid I2C addresses were found for any command sequence.
    NoValidAddressesFound,
    /// An I2C command execution failed.
    ExecutionFailed,
    /// An internal buffer overflowed.
    BufferOverflow,
    /// A dependency index is out of bounds.
    InvalidDependencyIndex,
    /// An I2C scan operation failed.
    DeviceNoFound(ErrorKind),
}

/// Errors that can occur during command execution.
#[derive(Clone, Copy, Debug, PartialEq, Eq, Structural)]
pub enum ExecutorError {
    /// The command failed to execute due to an I2C error.
    I2cError(ErrorKind),
    /// The command failed to execute (e.g., NACK, I/O error).
    ExecFailed,
    /// An internal buffer overflowed during command preparation.
    BufferOverflow,
}

impl ExecutorError {
    /// The text the error's debug form shows: the variant, with the error
    /// it carries in brackets.
    pub open spec fn debug_text(self) -> Seq<char> {
        match self {
            ExecutorError::I2cError(kind) => "I2cError("@ + kind.debug_text() + ")"@,
            ExecutorError::ExecFailed => "ExecFailed"@,
            ExecutorError::BufferOverflow => "BufferOverflow"@,
        }
    }

    /// The text the error's debug form shows.
    pub fn to_debug_text(&self) -> (s: String)
        ensures
            s@ == self.debug_text(),
    {
        match self {
            ExecutorError::I2cError(kind) => {
                let mut s = String::from_str("I2cError(");
                let inner = kind.to_debug_text();
                s.append(inner.as_str());
                s.append(")");
                s
            },
            ExecutorError::ExecFailed => String::from_str("ExecFailed"),
            ExecutorError::BufferOverflow => String::from_str("BufferOverflow"),
        }
    }
}

/// The exploration error an execution error becomes.
pub open spec fn explorer_error_of(error: ExecutorError) -> ExplorerError {
    match error {
        ExecutorError::I2cError(_) => ExplorerError::ExecutionFailed,
        ExecutorError::ExecFailed => ExplorerError::ExecutionFailed,
        ExecutorError::BufferOverflow => ExplorerError::BufferOverflow,
    }
}

impl vstd::std_specs::convert::FromSpecImpl<ExecutorError> for ExplorerError {
    open spec fn obeys_from_spec() -> bool {
        true
    }

    open spec fn from_spec(v: ExecutorError) -> ExplorerError {
        explorer_error_of(v)
    }
}

impl From<ExecutorError> for ExplorerError {
    fn from(error: ExecutorError) -> (r: ExplorerError) {
        match error {
            ExecutorError::I2cError(_) => ExplorerError::ExecutionFailed,
            ExecutorError::ExecFailed => ExplorerError::ExecutionFailed,
            ExecutorError::BufferOverflow => ExplorerError::BufferOverflow,
        }
    }
}

/// One command: the bytes to send and the indices of the commands that must
/// be sent before it.
#[derive(Copy, Clone)]
pub struct CmdNode {
    pub bytes: &'static [u8],
    pub deps: &'static [usize],
}

/// Something that sends one command to a device.
pub trait CmdExecutor<I2C, const BUF_CAP: usize> {
    /// Whether `self` is what `before` becomes, answering `r`, when it is
    /// asked to send `cmd` to the device at `addr` while the bus goes from
    /// `bus_before` to `bus_after`. An implementation that does not define
    /// it promises nothing about its answer.
    open spec fn executed(
        &self,
        before: &Self,
        bus_before: &I2C,
        bus_after: &I2C,
        addr: u8,
        cmd: Seq<u8>,
        r: Result<(), ExecutorError>,
    ) -> bool {
        true
    }

    /// Sends `cmd` to the device at `addr`, reporting to `logger`.
    fn exec<L: Logger<BUF_CAP>>(&mut self, i2c: &mut I2C, addr: u8, cmd: &[u8], logger: &mut L) -> (r: Result<
        (),
        ExecutorError,
    >)
        ensures
            final(self).executed(old(self), old(i2c), final(i2c), addr, cmd@, r),
    ;
}

/// One call of an executor: the address, the command and the answer.
pub type ExecCall = (u8, Seq<u8>, Result<(), ExecutorError>);

/// The calls `calls` are the executor runs, one after the other, that went
/// from executor state `states[0]` and bus `buses[0]` to the last ones, each
/// call related by the executor's own relation to the states around it.
pub open spec fn exec_trace<I2C, E: CmdExecutor<I2C, BUF_CAP>, const BUF_CAP: usize>(
    states: Seq<E>,
    buses: Seq<I2C>,
    calls: Seq<ExecCall>,
) -> bool {
    &&& states.len() == calls.len() + 1
    &&& buses.len() == calls.len() + 1
    &&& forall|i: int|
        0 <= i < calls.len() ==> #[trigger] states[i + 1].executed(
            &states[i],
            &buses[i],
            &buses[i + 1],
            calls[i].0,
            calls[i].1,
            calls[i].2,
        )
}

/// The calls `run` send the commands of `order` to `addr` in turn, stopping
/// after the first one that is not accepted.
pub open spec fn order_run(addr: u8, order: Seq<Seq<u8>>, run: Seq<ExecCall>) -> bool {
    &&& run.len() <= order.len()
    &&& order.len() > 0 ==> run.len() > 0
    &&& forall|k: int| 0 <= k < run.len() ==> (#[trigger] run[k]).0 == addr && run[k].1 == order[k]
    &&& forall|k: int| 0 <= k < run.len() - 1 ==> (#[trigger] run[k]).2 is Ok
    &&& run.len() < order.len() ==> run.last().2 is Err
}

/// The bytes of each command of an order.
pub open spec fn order_bytes(order: Seq<&[u8]>) -> Seq<Seq<u8>> {
    order.map_values(|b: &[u8]| b@)
}

/// Whether the run accepted the whole order.
pub open spec fn run_accepted(order: Seq<Seq<u8>>, run: Seq<ExecCall>) -> bool {
    run.len() == order.len() && (run.len() == 0 || run.last().2 is Ok)
}

/// A command sequence of at most `N` commands.
pub struct Explorer<'a, const N: usize> {
    pub sequence: &'a [CmdNode],
}

/// The longest byte string among the first `n` commands.
pub open spec fn max_bytes_len(nodes: Seq<CmdNode>, n: int) -> nat
    decreases n,
{
    if n <= 0 {
        0
    } else {
        let prev = max_bytes_len(nodes, n - 1);
        let len = nodes[n - 1].bytes@.len();
        if len > prev {
            len
        } else {
            prev
        }
    }
}

impl<'a, const N: usize> Explorer<'a, N> {
    /// The length of the longest of the first `N` commands, plus one for the
    /// prefix byte sent before it.
    pub fn max_cmd_len(&self) -> (r: usize)
        requires
            N <= self.sequence@.len(),
            max_bytes_len(self.sequence@, N as int) < usize::MAX,
        ensures
            r == max_bytes_len(self.sequence@, N as int) + 1,
    {
        let mut max_len: usize = 0;
        let mut i: usize = 0;
        while i < N
            invariant
                i <= N <= self.sequence@.len(),
                max_len == max_bytes_len(self.sequence@, i as int),
            decreases N - i,
        {
            let len = self.sequence[i].bytes.len();
            if len > max_len {
                max_len = len;
            }
            i += 1;
        }
        max_len + 1
    }
}

// ---------------------------------------------------------------------------
// The dependency graph of a command sequence.
// ---------------------------------------------------------------------------

/// Command `i` exists and is not marked as failed.
pub open spec fn live(nodes: Seq<CmdNode>, failed: Seq<bool>, i: int) -> bool {
    0 <= i < nodes.len() && !failed[i]
}

/// How often `x` occurs in `s`.
pub open spec fn occurrences(s: Seq<usize>, x: int) -> nat
    decreases s.len(),
{
    if s.len() == 0 {
        0
    } else {
        occurrences(s.drop_last(), x) + (if s.last() == x {
            1nat
        } else {
            0nat
        })
    }
}

/// The dependencies in `s` that are not in `done`.
pub open spec fn pending(s: Seq<usize>, done: Seq<int>) -> nat
    decreases s.len(),
{
    if s.len() == 0 {
        0
    } else {
        pending(s.drop_last(), done) + (if done.contains(s.last() as int) {
            0nat
        } else {
            1nat
        })
    }
}

/// `x` written `k` times.
pub open spec fn repeat_index(x: usize, k: nat) -> Seq<usize>
    decreases k,
{
    if k == 0 {
        Seq::empty()
    } else {
        repeat_index(x, (k - 1) as nat).push(x)
    }
}

/// The commands among the first `n` that depend on `d`, in order, each as
/// often as `d` occurs in its dependency list: the reverse adjacency of `d`.
pub open spec fn dependents(nodes: Seq<CmdNode>, failed: Seq<bool>, d: int, n: int) -> Seq<usize>
    decreases n,
{
    if n <= 0 {
        Seq::empty()
    } else {
        dependents(nodes, failed, d, n - 1) + (if live(nodes, failed, n - 1) {
            repeat_index((n - 1) as usize, occurrences(nodes[n - 1].deps@, d))
        } else {
            Seq::empty()
        })
    }
}

/// Every dependency of a live command is a command index.
pub open spec fn deps_valid(nodes: Seq<CmdNode>, failed: Seq<bool>) -> bool {
    forall|i: int, j: int|
        live(nodes, failed, i) && 0 <= j < nodes[i].deps@.len() ==> #[trigger] nodes[i].deps@[j]
            < nodes.len()
}

/// Every command of `o` is live and comes after all of its dependencies.
pub open spec fn dep_ordered(nodes: Seq<CmdNode>, failed: Seq<bool>, o: Seq<int>) -> bool {
    &&& forall|k: int| 0 <= k < o.len() ==> live(nodes, failed, #[trigger] o[k])
    &&& forall|k: int, j: int|
        0 <= k < o.len() && 0 <= j < nodes[o[k]].deps@.len() ==> o.take(k).contains(
            #[trigger] nodes[o[k]].deps@[j] as int,
        )
}

/// `order` is what Kahn's algorithm returns: distinct live commands, each
/// after its dependencies, and among them every command of every such order.
pub open spec fn kahn_order(nodes: Seq<CmdNode>, failed: Seq<bool>, order: Seq<int>) -> bool {
    &&& order.no_duplicates()
    &&& dep_ordered(nodes, failed, order)
    &&& forall|o: Seq<int>, k: int|
        #![trigger dep_ordered(nodes, failed, o), o[k]]
        dep_ordered(nodes, failed, o) && 0 <= k < o.len() ==> order.contains(o[k])
}

/// The number of commands among the first `n` marked as failed.
pub open spec fn failed_count(failed: Seq<bool>, n: int) -> nat
    decreases n,
{
    if n <= 0 {
        0
    } else {
        failed_count(failed, n - 1) + (if failed[n - 1] {
            1nat
        } else {
            0nat
        })
    }
}

proof fn lemma_count_concat(a: Seq<usize>, b: Seq<usize>, x: int)
    ensures
        occurrences(a + b, x) == occurrences(a, x) + occurrences(b, x),
    decreases b.len(),
{
    if b.len() == 0 {
        assert(a + b =~= a);
    } else {
        lemma_count_concat(a, b.drop_last(), x);
        assert((a + b).drop_last() =~= a + b.drop_last());
    }
}

proof fn lemma_count_repeat(y: usize, k: nat, x: int)
    ensures
        occurrences(repeat_index(y, k), x) == (if x == y {
            k
        } else {
            0
        }),
        forall|i: int| 0 <= i < repeat_index(y, k).len() ==> #[trigger] repeat_index(y, k)[i] == y,
        repeat_index(y, k).len() == k,
    decreases k,
{
    if k > 0 {
        lemma_count_repeat(y, (k - 1) as nat, x);
        assert(repeat_index(y, k).drop_last() =~= repeat_index(y, (k - 1) as nat));
    }
}

/// The reverse adjacency of `d` counts each live command below `n` as often
/// as it depends on `d`, and holds nothing else.
proof fn lemma_dependents_count(nodes: Seq<CmdNode>, failed: Seq<bool>, d: int, n: int, x: int)
    requires
        0 <= n <= nodes.len() <= usize::MAX,
    ensures
        occurrences(dependents(nodes, failed, d, n), x) == (if live(nodes, failed, x) && x < n {
            occurrences(nodes[x].deps@, d)
        } else {
            0
        }),
    decreases n,
{
    if n > 0 {
        lemma_dependents_count(nodes, failed, d, n - 1, x);
        assert(((n - 1) as usize) as int == n - 1);
        let tail = if live(nodes, failed, n - 1) {
            repeat_index((n - 1) as usize, occurrences(nodes[n - 1].deps@, d))
        } else {
            Seq::empty()
        };
        lemma_count_concat(dependents(nodes, failed, d, n - 1), tail, x);
        if live(nodes, failed, n - 1) {
            lemma_count_repeat((n - 1) as usize, occurrences(nodes[n - 1].deps@, d), x);
        }
    }
}

/// Every entry of a reverse adjacency is a live command below `n`.
proof fn lemma_dependents_live(nodes: Seq<CmdNode>, failed: Seq<bool>, d: int, n: int)
    requires
        0 <= n <= nodes.len() <= usize::MAX,
    ensures
        forall|k: int|
            0 <= k < dependents(nodes, failed, d, n).len() ==> live(
                nodes,
                failed,
                #[trigger] dependents(nodes, failed, d, n)[k] as int,
            ) && dependents(nodes, failed, d, n)[k] < n,
    decreases n,
{
    if n > 0 {
        lemma_dependents_live(nodes, failed, d, n - 1);
        let prev = dependents(nodes, failed, d, n - 1);
        assert(((n - 1) as usize) as int == n - 1);
        if live(nodes, failed, n - 1) {
            let tail = repeat_index((n - 1) as usize, occurrences(nodes[n - 1].deps@, d));
            lemma_count_repeat((n - 1) as usize, occurrences(nodes[n - 1].deps@, d), 0);
            assert forall|k: int| 0 <= k < dependents(nodes, failed, d, n).len() implies live(
                nodes,
                failed,
                #[trigger] dependents(nodes, failed, d, n)[k] as int,
            ) && dependents(nodes, failed, d, n)[k] < n by {
                if k < prev.len() {
                    assert(dependents(nodes, failed, d, n)[k] == prev[k]);
                } else {
                    assert(dependents(nodes, failed, d, n)[k] == tail[k - prev.len()]);
                }
            }
        } else {
            assert(dependents(nodes, failed, d, n) =~= prev);
        }
    }
}

proof fn lemma_count_le_pending(s: Seq<usize>, done: Seq<int>, x: int)
    requires
        !done.contains(x),
    ensures
        occurrences(s, x) <= pending(s, done),
        pending(s, done.push(x)) + occurrences(s, x) == pending(s, done),
    decreases s.len(),
{
    if s.len() > 0 {
        lemma_count_le_pending(s.drop_last(), done, x);
        let y = s.last() as int;
        if done.push(x).contains(y) && !done.contains(y) {
            let k = choose|k: int| 0 <= k < done.push(x).len() && done.push(x)[k] == y;
            if k < done.len() {
                assert(done[k] == y);
            }
        }
        if done.contains(y) {
            let k = choose|k: int| 0 <= k < done.len() && done[k] == y;
            assert(done.push(x)[k] == y);
        }
        if y == x {
            assert(done.push(x)[done.len() as int] == x);
        }
    }
}

proof fn lemma_pending_zero(s: Seq<usize>, done: Seq<int>)
    ensures
        pending(s, done) == 0 <==> forall|j: int| 0 <= j < s.len() ==> done.contains(#[trigger] s[j] as int),
    decreases s.len(),
{
    if s.len() > 0 {
        lemma_pending_zero(s.drop_last(), done);
        if pending(s, done) == 0 {
            assert forall|j: int| 0 <= j < s.len() implies done.contains(#[trigger] s[j] as int) by {
                if j < s.len() - 1 {
                    assert(s.drop_last()[j] == s[j]);
                }
            }
        }
        if forall|j: int| 0 <= j < s.len() ==> done.contains(#[trigger] s[j] as int) {
            assert forall|j: int| 0 <= j < s.drop_last().len() implies done.contains(
                #[trigger] s.drop_last()[j] as int,
            ) by {
                assert(s.drop_last()[j] == s[j]);
            }
            assert(done.contains(s[s.len() - 1] as int));
        }
    }
}

/// The dependency lists of the live commands among the first `n`, one after
/// the other: the order in which they are scanned.
pub open spec fn dep_list(nodes: Seq<CmdNode>, failed: Seq<bool>, n: int) -> Seq<usize>
    decreases n,
{
    if n <= 0 {
        Seq::empty()
    } else {
        dep_list(nodes, failed, n - 1) + (if live(nodes, failed, n - 1) {
            nodes[n - 1].deps@
        } else {
            Seq::empty()
        })
    }
}

/// The first error met while scanning the dependency indices `dl` of a
/// sequence of `len` commands into reverse-adjacency lists that hold `cap`
/// entries each: an index that is not a command, or a list already full.
pub open spec fn scan_error(dl: Seq<usize>, len: int, cap: int) -> Option<ExplorerError>
    decreases dl.len(),
{
    if dl.len() == 0 {
        None
    } else {
        match scan_error(dl.drop_last(), len, cap) {
            Some(e) => Some(e),
            None => if dl.last() >= len {
                Some(ExplorerError::InvalidDependencyIndex)
            } else if occurrences(dl.drop_last(), dl.last() as int) >= cap {
                Some(ExplorerError::BufferOverflow)
            } else {
                None
            },
        }
    }
}

/// Some order of live commands with dependencies first reaches a command of
/// more than `max` bytes.
pub open spec fn long_reachable(nodes: Seq<CmdNode>, failed: Seq<bool>, max: int) -> bool {
    exists|o: Seq<int>, k: int|
        dep_ordered(nodes, failed, o) && 0 <= k < o.len() && #[trigger] nodes[o[k]].bytes@.len() > max
}

proof fn lemma_scan_error_extend(a: Seq<usize>, b: Seq<usize>, len: int, cap: int)
    requires
        scan_error(a, len, cap) is Some,
    ensures
        scan_error(a + b, len, cap) == scan_error(a, len, cap),
    decreases b.len(),
{
    if b.len() == 0 {
        assert(a + b =~= a);
    } else {
        lemma_scan_error_extend(a, b.drop_last(), len, cap);
        assert((a + b).drop_last() =~= a + b.drop_last());
    }
}

proof fn lemma_dep_list_prefix(nodes: Seq<CmdNode>, failed: Seq<bool>, i: int, n: int)
    requires
        0 <= i <= n,
    ensures
        dep_list(nodes, failed, n) =~= dep_list(nodes, failed, i) + dep_list(nodes, failed, n).subrange(
            dep_list(nodes, failed, i).len() as int,
            dep_list(nodes, failed, n).len() as int,
        ),
        dep_list(nodes, failed, i).len() <= dep_list(nodes, failed, n).len(),
    decreases n - i,
{
    if i < n {
        lemma_dep_list_prefix(nodes, failed, i, n - 1);
    }
}

proof fn lemma_dependents_len(nodes: Seq<CmdNode>, failed: Seq<bool>, d: int, n: int)
    requires
        0 <= n <= nodes.len() <= usize::MAX,
    ensures
        dependents(nodes, failed, d, n).len() == occurrences(dep_list(nodes, failed, n), d),
    decreases n,
{
    if n > 0 {
        lemma_dependents_len(nodes, failed, d, n - 1);
        if live(nodes, failed, n - 1) {
            lemma_count_repeat((n - 1) as usize, occurrences(nodes[n - 1].deps@, d), d);
            lemma_count_concat(dep_list(nodes, failed, n - 1), nodes[n - 1].deps@, d);
        } else {
            assert(dep_list(nodes, failed, n) =~= dep_list(nodes, failed, n - 1));
        }
    }
}

proof fn lemma_count_prefix(s: Seq<usize>, k: int, x: int)
    requires
        0 <= k <= s.len(),
    ensures
        occurrences(s.take(k), x) <= occurrences(s, x),
    decreases s.len() - k,
{
    if k < s.len() {
        lemma_count_prefix(s.drop_last(), k, x);
        assert(s.drop_last().take(k) =~= s.take(k));
    } else {
        assert(s.take(k) =~= s);
    }
}

proof fn lemma_count_pos(s: Seq<usize>, x: int)
    requires
        occurrences(s, x) > 0,
    ensures
        exists|j: int| 0 <= j < s.len() && s[j] == x,
    decreases s.len(),
{
    if s.last() != x {
        lemma_count_pos(s.drop_last(), x);
        let j = choose|j: int| 0 <= j < s.drop_last().len() && s.drop_last()[j] == x;
        assert(s[j] == x);
    } else {
        assert(s[s.len() - 1] == x);
    }
}

/// A sequence of distinct integers in `[0, m)` has at most `m` entries.
proof fn lemma_distinct_bounded(s: Seq<int>, m: int)
    requires
        s.no_duplicates(),
        forall|k: int| 0 <= k < s.len() ==> 0 <= #[trigger] s[k] < m,
        0 <= m,
    ensures
        s.len() <= m,
{
    s.unique_seq_to_set();
    assert forall|x: int| s.to_set().contains(x) implies vstd::set_lib::set_int_range(0, m).contains(x) by {
        let i = choose|i: int| 0 <= i < s.len() && s[i] == x;
    }
    vstd::set_lib::lemma_int_range(0, m);
    vstd::set_lib::lemma_len_subset(s.to_set(), vstd::set_lib::set_int_range(0, m));
}

impl<'a, const N: usize> Explorer<'a, N> {
    /// Builds the in-degree of every live command and the reverse adjacency
    /// of every command, scanning the dependency lists in order.
    fn build_adjacency(&self, failed_nodes: &[bool; N]) -> (r: Result<
        (Vec<usize>, Vec<Vec<usize>>),
        ExplorerError,
    >)
        requires
            self.sequence@.len() <= N,
        ensures
            ({
                let nodes = self.sequence@;
                let len = nodes.len() as int;
                match r {
                    Err(e) => scan_error(dep_list(nodes, failed_nodes@, len), len, N as int) == Some(e),
                    Ok((in_degree, adj)) => {
                        &&& scan_error(dep_list(nodes, failed_nodes@, len), len, N as int) is None
                        &&& deps_valid(nodes, failed_nodes@)
                        &&& in_degree@.len() == len
                        &&& adj@.len() == len
                        &&& forall|v: int|
                            live(nodes, failed_nodes@, v) ==> #[trigger] in_degree@[v]
                                == nodes[v].deps@.len()
                        &&& forall|d: int|
                            0 <= d < len ==> (#[trigger] adj@[d])@ == dependents(
                                nodes,
                                failed_nodes@,
                                d,
                                len,
                            )
                    },
                }
            }),
    {
        let ghost nodes = self.sequence@;
        let ghost failed = failed_nodes@;
        let len = self.sequence.len();
        let mut in_degree: Vec<usize> = Vec::new();
        let mut adj: Vec<Vec<usize>> = Vec::new();
        let mut k: usize = 0;
        while k < len
            invariant
                k <= len,
                in_degree@.len() == k,
                adj@.len() == k,
                forall|v: int| 0 <= v < k ==> #[trigger] in_degree@[v] == 0,
                forall|d: int| 0 <= d < k ==> (#[trigger] adj@[d])@ == Seq::<usize>::empty(),
            decreases len - k,
        {
            in_degree.push(0);
            adj.push(Vec::new());
            k += 1;
        }
        let mut i: usize = 0;
        while i < len
            invariant
                i <= len == nodes.len() <= N,
                nodes == self.sequence@,
                failed == failed_nodes@,
                failed.len() == N,
                in_degree@.len() == len,
                adj@.len() == len,
                forall|v: int| 0 <= v < i && live(nodes, failed, v) ==> #[trigger] in_degree@[v] == nodes[v].deps@.len(),
                forall|d: int| 0 <= d < len ==> (#[trigger] adj@[d])@ == dependents(nodes, failed, d, i as int),
                scan_error(dep_list(nodes, failed, i as int), len as int, N as int) is None,
                forall|v: int, j: int|
                    0 <= v < i && live(nodes, failed, v) && 0 <= j < nodes[v].deps@.len()
                        ==> #[trigger] nodes[v].deps@[j] < len,
            decreases len - i,
        {
            if failed_nodes[i] {
                proof {
                    assert(dep_list(nodes, failed, i + 1) =~= dep_list(nodes, failed, i as int));
                    assert forall|d: int| 0 <= d < len implies (#[trigger] adj@[d])@ == dependents(
                        nodes,
                        failed,
                        d,
                        i + 1,
                    ) by {
                        assert(dependents(nodes, failed, d, i + 1) =~= dependents(nodes, failed, d, i as int));
                    }
                }
                i += 1;
                continue;
            }
            let deps = self.sequence[i].deps;
            in_degree[i] = deps.len();
            let ghost prev = dep_list(nodes, failed, i as int);
            let mut j: usize = 0;
            while j < deps.len()
                invariant
                    j <= deps@.len(),
                    i < len == nodes.len() <= N,
                    nodes == self.sequence@,
                    failed == failed_nodes@,
                    failed.len() == N,
                    !failed[i as int],
                    deps@ == nodes[i as int].deps@,
                    prev == dep_list(nodes, failed, i as int),
                    in_degree@.len() == len,
                    adj@.len() == len,
                    forall|v: int| 0 <= v <= i && live(nodes, failed, v) ==> #[trigger] in_degree@[v] == nodes[v].deps@.len(),
                    forall|d: int|
                        0 <= d < len ==> (#[trigger] adj@[d])@ == dependents(nodes, failed, d, i as int)
                            + repeat_index(i, occurrences(deps@.take(j as int), d)),
                    scan_error(prev + deps@.take(j as int), len as int, N as int) is None,
                    forall|v: int, jj: int|
                        0 <= v < i && live(nodes, failed, v) && 0 <= jj < nodes[v].deps@.len()
                            ==> #[trigger] nodes[v].deps@[jj] < len,
                    forall|jj: int| 0 <= jj < j ==> #[trigger] deps@[jj] < len,
                decreases deps@.len() - j,
            {
                let dep_idx = deps[j];
                let ghost pre = prev + deps@.take(j as int);
                let ghost nxt = prev + deps@.take(j + 1);
                proof {
                    assert(nxt.drop_last() =~= pre);
                    assert(nxt.last() == dep_idx);
                    lemma_dep_list_prefix(nodes, failed, i + 1, len as int);
                    assert(dep_list(nodes, failed, i + 1) == prev + deps@);
                    assert(deps@ =~= deps@.take(j + 1) + deps@.subrange(j + 1, deps@.len() as int));
                    assert(dep_list(nodes, failed, len as int) =~= nxt + (deps@.subrange(
                        j + 1,
                        deps@.len() as int,
                    ) + dep_list(nodes, failed, len as int).subrange(
                        dep_list(nodes, failed, i + 1).len() as int,
                        dep_list(nodes, failed, len as int).len() as int,
                    )));
                }
                if dep_idx >= len {
                    proof {
                        assert(scan_error(nxt, len as int, N as int) == Some(ExplorerError::InvalidDependencyIndex));
                        lemma_scan_error_extend(
                            nxt,
                            deps@.subrange(j + 1, deps@.len() as int) + dep_list(nodes, failed, len as int).subrange(
                                dep_list(nodes, failed, i + 1).len() as int,
                                dep_list(nodes, failed, len as int).len() as int,
                            ),
                            len as int,
                            N as int,
                        );
                    }
                    return Err(ExplorerError::InvalidDependencyIndex);
                }
                proof {
                    lemma_dependents_len(nodes, failed, dep_idx as int, i as int);
                    lemma_count_repeat(i, occurrences(deps@.take(j as int), dep_idx as int), dep_idx as int);
                    lemma_count_concat(prev, deps@.take(j as int), dep_idx as int);
                    assert(adj@[dep_idx as int]@.len() == occurrences(pre, dep_idx as int));
                }
                if adj[dep_idx].len() >= N {
                    proof {
                        assert(scan_error(nxt, len as int, N as int) == Some(ExplorerError::BufferOverflow));
                        lemma_scan_error_extend(
                            nxt,
                            deps@.subrange(j + 1, deps@.len() as int) + dep_list(nodes, failed, len as int).subrange(
                                dep_list(nodes, failed, i + 1).len() as int,
                                dep_list(nodes, failed, len as int).len() as int,
                            ),
                            len as int,
                            N as int,
                        );
                    }
                    return Err(ExplorerError::BufferOverflow);
                }
                let ghost adj0 = adj@;
                adj[dep_idx].push(i);
                proof {
                    assert forall|d: int|
                        0 <= d < len implies (#[trigger] adj@[d])@ == dependents(nodes, failed, d, i as int)
                            + repeat_index(i, occurrences(deps@.take(j + 1), d)) by {
                        assert(deps@.take(j + 1).drop_last() =~= deps@.take(j as int));
                        if d == dep_idx {
                            assert(adj@[d]@ =~= adj0[d]@.push(i));
                        } else {
                            assert(adj@[d] == adj0[d]);
                        }
                    }
                }
                j += 1;
            }
            proof {
                assert(deps@.take(deps@.len() as int) =~= deps@);
                assert(dep_list(nodes, failed, i + 1) == prev + deps@);
                assert forall|d: int| 0 <= d < len implies (#[trigger] adj@[d])@ == dependents(
                    nodes,
                    failed,
                    d,
                    i + 1,
                ) by {
                    assert(((i + 1 - 1) as usize) == i);
                }
            }
            i += 1;
        }
        proof {
            assert forall|v: int, j: int|
                live(nodes, failed, v) && 0 <= j < nodes[v].deps@.len() implies #[trigger] nodes[v].deps@[j]
                < nodes.len() by {}
        }
        Ok((in_degree, adj))
    }
}

/// The state of Kahn's algorithm after returning `done`: every returned
/// command is live and after its dependencies; the queue holds distinct live
/// commands not yet returned; a live command not yet returned has as
/// in-degree the number of its dependencies not yet returned, and is queued
/// exactly when that number is 0.
pub open spec fn kahn_state(
    nodes: Seq<CmdNode>,
    failed: Seq<bool>,
    in_degree: Seq<usize>,
    q: Seq<usize>,
    done: Seq<int>,
) -> bool {
    &&& done.no_duplicates()
    &&& dep_ordered(nodes, failed, done)
    &&& q.no_duplicates()
    &&& forall|k: int| 0 <= k < q.len() ==> live(nodes, failed, #[trigger] q[k] as int) && !done.contains(q[k] as int)
    &&& in_degree.len() == nodes.len()
    &&& forall|v: int|
        live(nodes, failed, v) && !done.contains(v) ==> #[trigger] in_degree[v] == pending(
            nodes[v].deps@,
            done,
        ) && (q.contains(v as usize) <==> in_degree[v] == 0)
}

/// Every command of a dependency-ordered sequence before position `k` has
/// been returned once the queue is empty.
proof fn lemma_prefix_done(
    nodes: Seq<CmdNode>,
    failed: Seq<bool>,
    in_degree: Seq<usize>,
    done: Seq<int>,
    o: Seq<int>,
    k: int,
)
    requires
        kahn_state(nodes, failed, in_degree, Seq::empty(), done),
        nodes.len() <= usize::MAX,
        dep_ordered(nodes, failed, o),
        0 <= k <= o.len(),
    ensures
        forall|i: int| 0 <= i < k ==> done.contains(#[trigger] o[i]),
    decreases k,
{
    if k > 0 {
        lemma_prefix_done(nodes, failed, in_degree, done, o, k - 1);
        let x = o[k - 1];
        let s = nodes[x].deps@;
        assert forall|j: int| 0 <= j < s.len() implies done.contains(#[trigger] s[j] as int) by {
            assert(o.take(k - 1).contains(nodes[o[k - 1]].deps@[j] as int));
            let pre = o.take(k - 1);
            let m = choose|m: int| 0 <= m < pre.len() && #[trigger] pre[m] == s[j] as int;
            assert(o[m] == pre[m]);
        }
        lemma_pending_zero(s, done);
        if !done.contains(x) {
            assert(live(nodes, failed, x));
            assert((x as usize) as int == x);
            assert(in_degree[x] == pending(nodes[x].deps@, done));
            assert(Seq::<usize>::empty().contains(x as usize));
        }
    }
}

proof fn lemma_pending_empty(s: Seq<usize>)
    ensures
        pending(s, Seq::empty()) == s.len(),
    decreases s.len(),
{
    if s.len() > 0 {
        lemma_pending_empty(s.drop_last());
    }
}

/// Taking a queued command `u` from a Kahn state, with `q1` what stays
/// queued: `u` is live, not yet returned, with all its dependencies returned,
/// and returning it keeps the returned commands distinct and
/// dependency-ordered.
proof fn lemma_take_queued(
    nodes: Seq<CmdNode>,
    failed: Seq<bool>,
    in_degree: Seq<usize>,
    qp: Seq<usize>,
    q1: Seq<usize>,
    u: usize,
    done: Seq<int>,
)
    requires
        kahn_state(nodes, failed, in_degree, qp, done),
        nodes.len() <= usize::MAX,
        qp.contains(u),
        q1.no_duplicates(),
        !q1.contains(u),
        forall|x: usize| #[trigger] qp.contains(x) <==> (q1.contains(x) || x == u),
    ensures
        live(nodes, failed, u as int),
        !done.contains(u as int),
        pending(nodes[u as int].deps@, done) == 0,
        dep_ordered(nodes, failed, done.push(u as int)),
        done.push(u as int).no_duplicates(),
        done.len() + 1 <= nodes.len(),
        forall|k: int| 0 <= k < q1.len() ==> live(nodes, failed, #[trigger] q1[k] as int) && !done.push(u as int).contains(q1[k] as int),
        forall|v: int|
            live(nodes, failed, v) && !done.push(u as int).contains(v) ==> #[trigger] in_degree[v]
                + occurrences(Seq::<usize>::empty(), v) == pending(nodes[v].deps@, done) && (q1.contains(v as usize)
                <==> in_degree[v] == 0),
{
    let d1 = done.push(u as int);
    let ku = choose|k: int| 0 <= k < qp.len() && qp[k] == u;
    assert(live(nodes, failed, qp[ku] as int) && !done.contains(qp[ku] as int));
    assert(in_degree[u as int] == pending(nodes[u as int].deps@, done));
    assert(((u as int) as usize) == u);
    lemma_pending_zero(nodes[u as int].deps@, done);
    assert forall|k: int| 0 <= k < q1.len() implies live(nodes, failed, #[trigger] q1[k] as int) && !d1.contains(q1[k] as int) by {
        assert(q1.contains(q1[k]));
        assert(qp.contains(q1[k]));
        let m = choose|m: int| 0 <= m < qp.len() && qp[m] == q1[k];
        assert(live(nodes, failed, qp[m] as int) && !done.contains(qp[m] as int));
        assert(q1[k] != u);
        if d1.contains(q1[k] as int) {
            let m2 = choose|m2: int| 0 <= m2 < d1.len() && d1[m2] == q1[k] as int;
            if m2 < done.len() {
                assert(done[m2] == q1[k] as int);
            }
        }
    }
    assert forall|v: int|
        live(nodes, failed, v) && !d1.contains(v) implies #[trigger] in_degree[v] + occurrences(Seq::<usize>::empty(), v)
            == pending(nodes[v].deps@, done) && (q1.contains(v as usize) <==> in_degree[v] == 0) by {
        assert(d1[done.len() as int] == u as int);
        assert(!done.contains(v)) by {
            if done.contains(v) {
                let m = choose|m: int| 0 <= m < done.len() && done[m] == v;
                assert(d1[m] == v);
            }
        }
        assert(v != u as int);
        assert((v as usize) as int == v);
        assert(qp.contains(v as usize) <==> q1.contains(v as usize));
    }
    assert forall|k: int, j: int|
        0 <= k < d1.len() && 0 <= j < nodes[d1[k]].deps@.len() implies d1.take(k).contains(
        #[trigger] nodes[d1[k]].deps@[j] as int,
    ) by {
        if k < done.len() {
            assert(d1.take(k) =~= done.take(k));
            assert(d1[k] == done[k]);
        } else {
            assert(d1.take(k) =~= done);
        }
    }
    assert forall|a: int, b: int| 0 <= a < b < d1.len() implies d1[a] != d1[b] by {
        if b == done.len() {
            assert(done.contains(done[a]));
        }
    }
    assert forall|k: int| 0 <= k < d1.len() implies 0 <= #[trigger] d1[k] < nodes.len() by {
        if k < done.len() {
            assert(d1[k] == done[k]);
        }
        assert(live(nodes, failed, d1[k]));
    }
    lemma_distinct_bounded(d1, nodes.len() as int);
}

/// Taking the last queued command.
proof fn lemma_pop_facts(
    nodes: Seq<CmdNode>,
    failed: Seq<bool>,
    in_degree: Seq<usize>,
    q1: Seq<usize>,
    u: usize,
    done: Seq<int>,
)
    requires
        kahn_state(nodes, failed, in_degree, q1.push(u), done),
        nodes.len() <= usize::MAX,
    ensures
        live(nodes, failed, u as int),
        !done.contains(u as int),
        pending(nodes[u as int].deps@, done) == 0,
        dep_ordered(nodes, failed, done.push(u as int)),
        done.push(u as int).no_duplicates(),
        done.len() + 1 <= nodes.len(),
        q1.no_duplicates(),
        forall|k: int| 0 <= k < q1.len() ==> live(nodes, failed, #[trigger] q1[k] as int) && !done.push(u as int).contains(q1[k] as int),
        forall|v: int|
            live(nodes, failed, v) && !done.push(u as int).contains(v) ==> #[trigger] in_degree[v]
                + occurrences(Seq::<usize>::empty(), v) == pending(nodes[v].deps@, done) && (q1.contains(v as usize)
                <==> in_degree[v] == 0),
{
    let qp = q1.push(u);
    assert(qp[q1.len() as int] == u);
    assert forall|a: int, b: int| 0 <= a < b < q1.len() implies q1[a] != q1[b] by {
        assert(qp[a] == q1[a] && qp[b] == q1[b]);
    }
    assert(!q1.contains(u)) by {
        if q1.contains(u) {
            let k = choose|k: int| 0 <= k < q1.len() && q1[k] == u;
            assert(qp[k] == qp[q1.len() as int]);
        }
    }
    assert forall|x: usize| #[trigger] qp.contains(x) <==> (q1.contains(x) || x == u) by {
        if qp.contains(x) {
            let k = choose|k: int| 0 <= k < qp.len() && qp[k] == x;
            if k < q1.len() {
                assert(q1[k] == x);
            }
        }
        if q1.contains(x) {
            let k = choose|k: int| 0 <= k < q1.len() && q1[k] == x;
            assert(qp[k] == x);
        }
    }
    lemma_take_queued(nodes, failed, in_degree, qp, q1, u, done);
}

/// The `j`-th dependent `v` of the returned command `u` is live, not yet
/// returned, and still has at least one pending dependency for each of its
/// occurrences up to `j`.
proof fn lemma_relax_target(
    nodes: Seq<CmdNode>,
    failed: Seq<bool>,
    u: usize,
    done: Seq<int>,
    nb: Seq<usize>,
    j: int,
)
    requires
        nodes.len() <= usize::MAX,
        nb == dependents(nodes, failed, u as int, nodes.len() as int),
        0 <= j < nb.len(),
        live(nodes, failed, u as int),
        !done.contains(u as int),
        pending(nodes[u as int].deps@, done) == 0,
        dep_ordered(nodes, failed, done),
    ensures
        live(nodes, failed, nb[j] as int),
        nb[j] < nodes.len(),
        !done.push(u as int).contains(nb[j] as int),
        occurrences(nb.take(j + 1), nb[j] as int) == occurrences(nb.take(j), nb[j] as int) + 1,
        occurrences(nb.take(j + 1), nb[j] as int) <= pending(nodes[nb[j] as int].deps@, done),
{
    let v = nb[j] as int;
    let len = nodes.len() as int;
    lemma_dependents_live(nodes, failed, u as int, len);
    lemma_dependents_count(nodes, failed, u as int, len, v);
    assert(nb.take(j + 1).drop_last() =~= nb.take(j));
    lemma_count_prefix(nb, j + 1, v);
    lemma_count_le_pending(nodes[v].deps@, done, u as int);
    lemma_count_pos(nodes[v].deps@, u as int);
    let p = choose|p: int| 0 <= p < nodes[v].deps@.len() && nodes[v].deps@[p] == u as int;
    lemma_pending_zero(nodes[u as int].deps@, done);
    if done.contains(v) {
        let m = choose|m: int| 0 <= m < done.len() && done[m] == v;
        assert(done.take(m).contains(nodes[done[m]].deps@[p] as int));
        let w = choose|w: int| 0 <= w < done.take(m).len() && done.take(m)[w] == u as int;
        assert(done[w] == u as int);
    }
    if v == u as int {
        assert(done.contains(nodes[u as int].deps@[p] as int));
    }
    assert(!done.push(u as int).contains(v)) by {
        if done.push(u as int).contains(v) {
            let m = choose|m: int| 0 <= m < done.push(u as int).len() && done.push(u as int)[m] == v;
            if m < done.len() {
                assert(done[m] == v);
            }
        }
    }
}

/// After the dependents of `u` have all been relaxed, returning `u` leaves a
/// Kahn state.
proof fn lemma_relax_done(
    nodes: Seq<CmdNode>,
    failed: Seq<bool>,
    in_degree: Seq<usize>,
    q: Seq<usize>,
    u: usize,
    done: Seq<int>,
)
    requires
        nodes.len() <= usize::MAX,
        in_degree.len() == nodes.len(),
        live(nodes, failed, u as int),
        !done.contains(u as int),
        pending(nodes[u as int].deps@, done) == 0,
        done.no_duplicates(),
        dep_ordered(nodes, failed, done),
        q.no_duplicates(),
        forall|k: int| 0 <= k < q.len() ==> live(nodes, failed, #[trigger] q[k] as int) && !done.push(u as int).contains(q[k] as int),
        forall|v: int|
            live(nodes, failed, v) && !done.push(u as int).contains(v) ==> #[trigger] in_degree[v] + occurrences(
                dependents(nodes, failed, u as int, nodes.len() as int),
                v,
            ) == pending(nodes[v].deps@, done) && (q.contains(v as usize) <==> in_degree[v] == 0),
    ensures
        kahn_state(nodes, failed, in_degree, q, done.push(u as int)),
{
    let d1 = done.push(u as int);
    lemma_pending_zero(nodes[u as int].deps@, done);
    assert forall|v: int| live(nodes, failed, v) && !d1.contains(v) implies #[trigger] in_degree[v] == pending(
        nodes[v].deps@,
        d1,
    ) && (q.contains(v as usize) <==> in_degree[v] == 0) by {
        lemma_dependents_count(nodes, failed, u as int, nodes.len() as int, v);
        lemma_count_le_pending(nodes[v].deps@, done, u as int);
    }
    assert forall|k: int, j: int|
        0 <= k < d1.len() && 0 <= j < nodes[d1[k]].deps@.len() implies d1.take(k).contains(
        #[trigger] nodes[d1[k]].deps@[j] as int,
    ) by {
        if k < done.len() {
            assert(d1.take(k) =~= done.take(k));
            assert(d1[k] == done[k]);
        } else {
            assert(d1.take(k) =~= done);
        }
    }
    assert forall|a: int, b: int| 0 <= a < b < d1.len() implies d1[a] != d1[b] by {
        if b == done.len() {
            assert(done.contains(done[a]));
        }
    }
    assert forall|k: int| 0 <= k < d1.len() implies live(nodes, failed, #[trigger] d1[k]) by {
        if k < done.len() {
            assert(d1[k] == done[k]);
        }
    }
}

/// What the sort returns once the order `order` has been found: a cycle
/// error unless it holds every command not marked among the `n` failed flags,
/// else the bytes and the length of each command of the order.
pub open spec fn sort_result(
    nodes: Seq<CmdNode>,
    failed: Seq<bool>,
    n: int,
    order: Seq<int>,
    r: Result<(Vec<Vec<u8>>, Vec<usize>), ExplorerError>,
) -> bool {
    if order.len() + failed_count(failed, n) != nodes.len() {
        r is Err && r->Err_0 == ExplorerError::DependencyCycle
    } else {
        &&& r is Ok
        &&& r->Ok_0.0@.len() == order.len()
        &&& r->Ok_0.1@.len() == order.len()
        &&& forall|k: int|
            0 <= k < order.len() ==> (#[trigger] r->Ok_0.0@[k])@ == nodes[order[k]].bytes@
                && r->Ok_0.1@[k] == nodes[order[k]].bytes@.len()
    }
}

impl<'a, const N: usize> Explorer<'a, N> {
    /// Generates a single valid topological sort of the command sequence,
    /// skipping the commands marked in `failed_nodes`: the bytes of each
    /// command in the order found, and their lengths.
    pub fn get_one_topological_sort_buf<const MAX_CMD_LEN: usize>(
        &self,
        failed_nodes: &[bool; N],
    ) -> (r: Result<(Vec<Vec<u8>>, Vec<usize>), ExplorerError>)
        requires
            ({
                let nodes = self.sequence@;
                let len = nodes.len() as int;
                len <= N && scan_error(dep_list(nodes, failed_nodes@, len), len, N as int) is None
                    && !long_reachable(nodes, failed_nodes@, MAX_CMD_LEN as int) ==> failed_count(
                    failed_nodes@,
                    N as int,
                ) <= len
            }),
        ensures
            ({
                let nodes = self.sequence@;
                let failed = failed_nodes@;
                let len = nodes.len() as int;
                if len > N {
                    r is Err && r->Err_0 == ExplorerError::BufferOverflow
                } else {
                    match scan_error(dep_list(nodes, failed, len), len, N as int) {
                        Some(e) => r is Err && r->Err_0 == e,
                        None => if long_reachable(nodes, failed, MAX_CMD_LEN as int) {
                            r is Err && r->Err_0 == ExplorerError::BufferOverflow
                        } else {
                            exists|order: Seq<int>|
                                kahn_order(nodes, failed, order) && #[trigger] sort_result(
                                    nodes,
                                    failed,
                                    N as int,
                                    order,
                                    r,
                                )
                        },
                    }
                }
            }),
    {
        let ghost nodes = self.sequence@;
        let ghost failed = failed_nodes@;
        let len = self.sequence.len();
        if len > N {
            return Err(ExplorerError::BufferOverflow);
        }
        let (mut in_degree, adj) = match self.build_adjacency(failed_nodes) {
            Ok(built) => built,
            Err(e) => {
                return Err(e);
            },
        };
        let mut q: Vec<usize> = Vec::new();
        let mut i: usize = 0;
        while i < len
            invariant
                i <= len == nodes.len() <= N,
                nodes == self.sequence@,
                failed == failed_nodes@,
                failed.len() == N,
                in_degree@.len() == len,
                forall|v: int| live(nodes, failed, v) ==> #[trigger] in_degree@[v] == nodes[v].deps@.len(),
                q@.no_duplicates(),
                forall|k: int| 0 <= k < q@.len() ==> live(nodes, failed, #[trigger] q@[k] as int) && q@[k] < i,
                forall|v: int| 0 <= v < i && live(nodes, failed, v) ==> (q@.contains(v as usize) <==> #[trigger] in_degree@[v] == 0),
            decreases len - i,
        {
            let ghost q0 = q@;
            if !failed_nodes[i] && in_degree[i] == 0 {
                q.push(i);
            }
            proof {
                if q@ != q0 {
                    assert(q@ == q0.push(i));
                    assert forall|a: int, b: int| 0 <= a < b < q@.len() implies q@[a] != q@[b] by {
                        if b == q0.len() {
                            assert(q0[a] < i);
                        }
                    }
                }
                assert forall|v: int| 0 <= v < i + 1 && live(nodes, failed, v) implies (q@.contains(v as usize)
                    <==> #[trigger] in_degree@[v] == 0) by {
                    assert((v as usize) as int == v);
                    if q@.contains(v as usize) {
                        let k = choose|k: int| 0 <= k < q@.len() && q@[k] == v as usize;
                        if k < q0.len() {
                            assert(q0[k] == v as usize);
                        }
                    }
                    if q0.contains(v as usize) {
                        let k = choose|k: int| 0 <= k < q0.len() && q0[k] == v as usize;
                        assert(q@[k] == v as usize);
                    }
                    if v == i && in_degree@[v] == 0 {
                        assert(q@[q0.len() as int] == v as usize);
                    }
                }
            }
            i += 1;
        }
        let mut result_sequence: Vec<Vec<u8>> = Vec::new();
        let mut result_len_per_node: Vec<usize> = Vec::new();
        let mut visited_count: usize = 0;
        let ghost mut done: Seq<int> = Seq::empty();
        proof {
            assert forall|v: int| live(nodes, failed, v) && !done.contains(v) implies #[trigger] in_degree@[v]
                == pending(nodes[v].deps@, done) && (q@.contains(v as usize) <==> in_degree@[v] == 0) by {
                lemma_pending_empty(nodes[v].deps@);
            }
        }
        while q.len() > 0
            invariant
                len == nodes.len() <= N,
                nodes == self.sequence@,
                failed == failed_nodes@,
                failed.len() == N,
                deps_valid(nodes, failed),
                scan_error(dep_list(nodes, failed, len as int), len as int, N as int) is None,
                adj@.len() == len,
                forall|d: int| 0 <= d < len ==> (#[trigger] adj@[d])@ == dependents(nodes, failed, d, len as int),
                kahn_state(nodes, failed, in_degree@, q@, done),
                visited_count == done.len(),
                result_sequence@.len() == done.len(),
                result_len_per_node@.len() == done.len(),
                forall|k: int|
                    0 <= k < done.len() ==> (#[trigger] result_sequence@[k])@ == nodes[done[k]].bytes@
                        && result_len_per_node@[k] == nodes[done[k]].bytes@.len(),
                forall|k: int| 0 <= k < done.len() ==> nodes[#[trigger] done[k]].bytes@.len() <= MAX_CMD_LEN,
            decreases len - visited_count,
        {
            let ghost q_before = q@;
            let u = q.pop().unwrap();
            let ghost q1 = q@;
            proof {
                assert(q_before =~= q1.push(u));
                lemma_pop_facts(nodes, failed, in_degree@, q1, u, done);
            }
            visited_count += 1;
            let cmd_bytes = self.sequence[u].bytes;
            if cmd_bytes.len() > MAX_CMD_LEN {
                proof {
                    let o = done.push(u as int);
                    assert(o[done.len() as int] == u as int);
                    assert(dep_ordered(nodes, failed, o));
                    assert(nodes[o[done.len() as int]].bytes@.len() > MAX_CMD_LEN);
                    assert(long_reachable(nodes, failed, MAX_CMD_LEN as int));
                }
                return Err(ExplorerError::BufferOverflow);
            }
            let cmd_vec = vstd::slice::slice_to_vec(cmd_bytes);
            result_len_per_node.push(cmd_vec.len());
            result_sequence.push(cmd_vec);
            let ghost done1 = done.push(u as int);
            proof {
                assert forall|k: int| 0 <= k < done1.len() implies (#[trigger] result_sequence@[k])@
                    == nodes[done1[k]].bytes@ && result_len_per_node@[k] == nodes[done1[k]].bytes@.len() by {
                    if k == done.len() {
                        assert(done1[k] == u as int);
                    } else {
                        assert(done1[k] == done[k]);
                    }
                }
            }
            let nb = &adj[u];
            let mut j: usize = 0;
            while j < nb.len()
                invariant
                    j <= nb@.len(),
                    len == nodes.len() <= N,
                    nodes == self.sequence@,
                    failed == failed_nodes@,
                    failed.len() == N,
                    nb@ == dependents(nodes, failed, u as int, len as int),
                    done1 == done.push(u as int),
                    !done.contains(u as int),
                    live(nodes, failed, u as int),
                    pending(nodes[u as int].deps@, done) == 0,
                    dep_ordered(nodes, failed, done),
                    in_degree@.len() == len,
                    q@.no_duplicates(),
                    forall|k: int| 0 <= k < q@.len() ==> live(nodes, failed, #[trigger] q@[k] as int) && !done1.contains(q@[k] as int),
                    forall|v: int|
                        live(nodes, failed, v) && !done1.contains(v) ==> #[trigger] in_degree@[v] + occurrences(
                            nb@.take(j as int),
                            v,
                        ) == pending(nodes[v].deps@, done) && (q@.contains(v as usize) <==> in_degree@[v] == 0),
                decreases nb@.len() - j,
            {
                let v = nb[j];
                proof {
                    lemma_relax_target(nodes, failed, u, done, nb@, j as int);
                }
                if !failed_nodes[v] {
                    let ghost before = in_degree@;
                    let ghost q0 = q@;
                    in_degree[v] = in_degree[v] - 1;
                    if in_degree[v] == 0 {
                        q.push(v);
                    }
                    proof {
                        assert(nb@.take(j + 1).drop_last() =~= nb@.take(j as int));
                        assert forall|w: int|
                            live(nodes, failed, w) && !done1.contains(w) implies #[trigger] in_degree@[w]
                                + occurrences(nb@.take(j + 1), w) == pending(nodes[w].deps@, done) && (q@.contains(w as usize)
                                <==> in_degree@[w] == 0) by {
                            assert((w as usize) as int == w);
                            if q@.contains(w as usize) && !q0.contains(w as usize) {
                                assert(q@ == q0.push(v));
                                let k = choose|k: int| 0 <= k < q@.len() && q@[k] == w as usize;
                                if k < q0.len() {
                                    assert(q0[k] == w as usize);
                                }
                            }
                            if q0.contains(w as usize) {
                                let k = choose|k: int| 0 <= k < q0.len() && q0[k] == w as usize;
                                if q@ != q0 {
                                    assert(q@[k] == w as usize);
                                }
                            }
                            if w == v && in_degree@[w] == 0 {
                                assert(q@[q@.len() - 1] == w as usize);
                            }
                        }
                        if q@ != q0 {
                            assert forall|a: int, b: int| 0 <= a < b < q@.len() implies q@[a] != q@[b] by {
                                if b == q0.len() {
                                    assert(q0.contains(q0[a]));
                                }
                            }
                        }
                    }
                }
                j += 1;
            }
            proof {
                assert(nb@.take(nb@.len() as int) =~= nb@);
                lemma_relax_done(nodes, failed, in_degree@, q@, u, done);
                done = done1;
            }
        }
        proof {
            assert(q@ =~= Seq::<usize>::empty());
            assert forall|o: Seq<int>, k: int|
                #![trigger dep_ordered(nodes, failed, o), o[k]]
                dep_ordered(nodes, failed, o) && 0 <= k < o.len() implies done.contains(o[k]) by {
                lemma_prefix_done(nodes, failed, in_degree@, done, o, o.len() as int);
            }
            assert(kahn_order(nodes, failed, done));
            if long_reachable(nodes, failed, MAX_CMD_LEN as int) {
                let (o, k) = choose|o: Seq<int>, k: int|
                    dep_ordered(nodes, failed, o) && 0 <= k < o.len() && #[trigger] nodes[o[k]].bytes@.len()
                        > MAX_CMD_LEN;
                assert(done.contains(o[k]));
                let m = choose|m: int| 0 <= m < done.len() && done[m] == o[k];
                assert(nodes[done[m]].bytes@.len() <= MAX_CMD_LEN);
            }
        }
        let mut failed_total: usize = 0;
        let mut k: usize = 0;
        while k < N
            invariant
                k <= N,
                failed == failed_nodes@,
                failed.len() == N,
                failed_total == failed_count(failed, k as int),
                failed_total <= k,
            decreases N - k,
        {
            if failed_nodes[k] {
                failed_total += 1;
            }
            k += 1;
        }
        if visited_count != len - failed_total {
            proof {
                assert(sort_result(nodes, failed, N as int, done, Err(ExplorerError::DependencyCycle)));
            }
            return Err(ExplorerError::DependencyCycle);
        }
        let r = Ok((result_sequence, result_len_per_node));
        proof {
            assert(sort_result(nodes, failed, N as int, done, r));
        }
        r
    }
}

/// No command marked as failed.
pub open spec fn none_failed(n: nat) -> Seq<bool> {
    Seq::new(n, |i: int| false)
}

/// All live commands can be put in one order with dependencies first.
pub open spec fn orderable(nodes: Seq<CmdNode>, failed: Seq<bool>) -> bool {
    exists|o: Seq<int>|
        dep_ordered(nodes, failed, o) && forall|v: int| live(nodes, failed, v) ==> #[trigger] o.contains(v)
}

/// For Kahn's order, the commands are orderable exactly when the order holds
/// every live command.
proof fn lemma_kahn_order_orderable(nodes: Seq<CmdNode>, failed: Seq<bool>, order: Seq<int>)
    requires
        kahn_order(nodes, failed, order),
    ensures
        orderable(nodes, failed) <==> forall|v: int| live(nodes, failed, v) ==> #[trigger] order.contains(v),
{
    if orderable(nodes, failed) {
        let o = choose|o: Seq<int>|
            dep_ordered(nodes, failed, o) && forall|v: int| live(nodes, failed, v) ==> #[trigger] o.contains(v);
        assert forall|v: int| live(nodes, failed, v) implies #[trigger] order.contains(v) by {
            assert(o.contains(v));
            let k = choose|k: int| 0 <= k < o.len() && o[k] == v;
            assert(dep_ordered(nodes, failed, o));
            assert(order.contains(o[k]));
        }
    }
    if forall|v: int| live(nodes, failed, v) ==> #[trigger] order.contains(v) {
        assert(dep_ordered(nodes, failed, order));
    }
}

/// A Kahn state with nothing queued: the returned commands are Kahn's order.
proof fn lemma_exhausted_order(nodes: Seq<CmdNode>, failed: Seq<bool>, in_degree: Seq<usize>, done: Seq<int>)
    requires
        kahn_state(nodes, failed, in_degree, Seq::empty(), done),
        nodes.len() <= usize::MAX,
    ensures
        kahn_order(nodes, failed, done),
{
    assert forall|o: Seq<int>, k: int|
        #![trigger dep_ordered(nodes, failed, o), o[k]]
        dep_ordered(nodes, failed, o) && 0 <= k < o.len() implies done.contains(o[k]) by {
        lemma_prefix_done(nodes, failed, in_degree, done, o, o.len() as int);
    }
}

/// Distinct commands, one per live command, are all of them.
proof fn lemma_all_live_done(nodes: Seq<CmdNode>, failed: Seq<bool>, done: Seq<int>)
    requires
        done.no_duplicates(),
        forall|k: int| 0 <= k < done.len() ==> live(nodes, failed, #[trigger] done[k]),
        forall|i: int| 0 <= i < nodes.len() ==> !#[trigger] failed[i],
    ensures
        (done.len() == nodes.len()) <==> forall|v: int| live(nodes, failed, v) ==> #[trigger] done.contains(v),
{
    let r = vstd::set_lib::set_int_range(0, nodes.len() as int);
    vstd::set_lib::lemma_int_range(0, nodes.len() as int);
    done.unique_seq_to_set();
    assert(done.to_set().subset_of(r)) by {
        assert forall|x: int| done.to_set().contains(x) implies r.contains(x) by {
            let k = choose|k: int| 0 <= k < done.len() && done[k] == x;
            assert(live(nodes, failed, done[k]));
        }
    }
    if done.len() == nodes.len() {
        vstd::set_lib::lemma_subset_equality(done.to_set(), r);
        assert forall|v: int| live(nodes, failed, v) implies #[trigger] done.contains(v) by {
            assert(r.contains(v));
            assert(done.to_set().contains(v));
        }
    }
    if forall|v: int| live(nodes, failed, v) ==> #[trigger] done.contains(v) {
        assert(done.to_set() =~= r) by {
            assert forall|x: int| r.contains(x) implies done.to_set().contains(x) by {
                assert(live(nodes, failed, x));
                assert(done.contains(x));
            }
        }
    }
}

/// An iterator over the orders of a command sequence, built by extending
/// and backtracking a path of commands whose dependencies are all on it.
pub struct PermutationIter<'a, const N: usize> {
    sequence: &'a [CmdNode],
    total_nodes: usize,
    current_permutation: Vec<&'a [u8]>,
    used: Vec<bool>,
    in_degree: Vec<usize>,
    adj_list_rev: Vec<Vec<usize>>,
    path_stack: Vec<usize>,
    search_from: usize,
    is_done: bool,
    /// The path as command indices.
    chosen: Ghost<Seq<int>>,
}

impl<'a, const N: usize> PermutationIter<'a, N> {
    /// The commands.
    pub closed spec fn nodes(&self) -> Seq<CmdNode> {
        self.sequence@
    }

    /// The path of commands chosen so far.
    pub closed spec fn path(&self) -> Seq<int> {
        self.chosen@
    }

    /// Whether the iterator has ended.
    pub closed spec fn done(&self) -> bool {
        self.is_done
    }

    /// Where the search for the command after the path starts.
    pub closed spec fn resume(&self) -> int {
        self.search_from as int
    }

    /// The state of the search.
    pub open spec fn state(&self) -> SearchState {
        (self.path(), self.resume(), self.done())
    }

    /// The shape every iterator keeps: the path is a sequence of distinct
    /// commands, each after its dependencies; the used flags mark the path;
    /// each in-degree counts the dependencies not on the path; the reverse
    /// adjacency is that of the sequence; the permutation holds the bytes of
    /// the path; the search start is at most the number of commands.
    pub closed spec fn wf(&self) -> bool {
        let nodes = self.sequence@;
        let failed = none_failed(N as nat);
        let total = self.total_nodes as int;
        let path = self.chosen@;
        &&& total == nodes.len() <= N
        &&& deps_valid(nodes, failed)
        &&& self.adj_list_rev@.len() == total
        &&& forall|d: int| 0 <= d < total ==> (#[trigger] self.adj_list_rev@[d])@ == dependents(nodes, failed, d, total)
        &&& self.used@.len() == total
        &&& self.in_degree@.len() == total
        &&& path.no_duplicates()
        &&& dep_ordered(nodes, failed, path)
        &&& self.path_stack@.len() == path.len()
        &&& forall|k: int| 0 <= k < path.len() ==> #[trigger] self.path_stack@[k] as int == path[k]
        &&& forall|x: int| 0 <= x < total ==> #[trigger] self.used@[x] == path.contains(x)
        &&& forall|x: int| 0 <= x < total ==> #[trigger] self.in_degree@[x] == pending(nodes[x].deps@, path)
        &&& self.current_permutation@.len() == path.len()
        &&& forall|k: int| 0 <= k < path.len() ==> #[trigger] self.current_permutation@[k] == nodes[path[k]].bytes
        &&& self.search_from <= total
    }

    /// Builds the iterator over the commands of `explorer`, after checking that
    /// they fit `N`, that every dependency is a command, and that the
    /// commands can be ordered with dependencies first.
    pub fn new(explorer: &'a Explorer<'a, N>) -> (r: Result<Self, ExplorerError>)
        ensures
            ({
                let nodes = explorer.sequence@;
                let failed = none_failed(N as nat);
                let len = nodes.len() as int;
                if len > N {
                    r is Err && r->Err_0 == ExplorerError::TooManyCommands
                } else {
                    match scan_error(dep_list(nodes, failed, len), len, N as int) {
                        Some(e) => r is Err && r->Err_0 == e,
                        None => if !orderable(nodes, failed) {
                            r is Err && r->Err_0 == ExplorerError::DependencyCycle
                        } else {
                            &&& r is Ok
                            &&& r->Ok_0.wf()
                            &&& r->Ok_0.nodes() == nodes
                            &&& r->Ok_0.path() == Seq::<int>::empty()
                            &&& r->Ok_0.resume() == 0
                            &&& !r->Ok_0.done()
                        },
                    }
                }
            }),
    {
        let ghost nodes = explorer.sequence@;
        let ghost failed = none_failed(N as nat);
        let total_nodes = explorer.sequence.len();
        if total_nodes > N {
            return Err(ExplorerError::TooManyCommands);
        }
        let no_failures: [bool; N] = [false; N];
        assert(no_failures@ =~= failed);
        let (in_degree, adj_list_rev) = match explorer.build_adjacency(&no_failures) {
            Ok(built) => built,
            Err(e) => {
                return Err(e);
            },
        };
        let mut temp_in_degree: Vec<usize> = Vec::new();
        let mut q: Vec<usize> = Vec::new();
        let mut i: usize = 0;
        while i < total_nodes
            invariant
                i <= total_nodes == nodes.len() <= N,
                nodes == explorer.sequence@,
                failed == none_failed(N as nat),
                in_degree@.len() == total_nodes,
                forall|v: int| live(nodes, failed, v) ==> #[trigger] in_degree@[v] == nodes[v].deps@.len(),
                temp_in_degree@ == in_degree@.take(i as int),
                q@.no_duplicates(),
                forall|k: int| 0 <= k < q@.len() ==> #[trigger] q@[k] < i,
                forall|v: int| 0 <= v < i ==> (q@.contains(v as usize) <==> #[trigger] in_degree@[v] == 0),
            decreases total_nodes - i,
        {
            let d = in_degree[i];
            temp_in_degree.push(d);
            let ghost q0 = q@;
            if d == 0 {
                q.push(i);
            }
            proof {
                assert(temp_in_degree@ =~= in_degree@.take(i + 1));
                if q@ != q0 {
                    assert forall|a: int, b: int| 0 <= a < b < q@.len() implies q@[a] != q@[b] by {
                        if b == q0.len() {
                            assert(q0[a] < i);
                        }
                    }
                }
                assert forall|v: int| 0 <= v < i + 1 implies (q@.contains(v as usize) <==> #[trigger] in_degree@[v]
                    == 0) by {
                    assert((v as usize) as int == v);
                    if q@.contains(v as usize) {
                        let k = choose|k: int| 0 <= k < q@.len() && q@[k] == v as usize;
                        if k < q0.len() {
                            assert(q0[k] == v as usize);
                        }
                    }
                    if q0.contains(v as usize) {
                        let k = choose|k: int| 0 <= k < q0.len() && q0[k] == v as usize;
                        assert(q@[k] == v as usize);
                    }
                    if v == i && in_degree@[v] == 0 {
                        assert(q@[q0.len() as int] == v as usize);
                    }
                }
            }
            i += 1;
        }
        let ghost mut done: Seq<int> = Seq::empty();
        proof {
            assert(temp_in_degree@ =~= in_degree@);
            assert(q@.skip(0) =~= q@);
            assert forall|v: int| live(nodes, failed, v) && !done.contains(v) implies #[trigger] temp_in_degree@[v]
                == pending(nodes[v].deps@, done) && (q@.skip(0).contains(v as usize) <==> temp_in_degree@[v]
                == 0) by {
                lemma_pending_empty(nodes[v].deps@);
            }
            assert forall|k: int| 0 <= k < q@.skip(0).len() implies live(nodes, failed, #[trigger] q@.skip(0)[k] as int)
                && !done.contains(q@.skip(0)[k] as int) by {
                assert(q@.skip(0)[k] == q@[k]);
            }
        }
        let mut count: usize = 0;
        let mut q_idx: usize = 0;
        while q_idx < q.len()
            invariant
                total_nodes == nodes.len() <= N,
                nodes == explorer.sequence@,
                failed == none_failed(N as nat),
                failed.len() == N,
                deps_valid(nodes, failed),
                adj_list_rev@.len() == total_nodes,
                forall|d: int| 0 <= d < total_nodes ==> (#[trigger] adj_list_rev@[d])@ == dependents(nodes, failed, d, total_nodes as int),
                q_idx <= q@.len(),
                kahn_state(nodes, failed, temp_in_degree@, q@.skip(q_idx as int), done),
                count == done.len(),
            decreases total_nodes - count, q@.len() - q_idx,
        {
            let u = q[q_idx];
            let ghost qp = q@.skip(q_idx as int);
            let ghost q1 = q@.skip(q_idx + 1);
            proof {
                assert(qp[0] == u);
                assert(qp.contains(u));
                assert forall|a: int, b: int| 0 <= a < b < q1.len() implies q1[a] != q1[b] by {
                    assert(q1[a] == qp[a + 1] && q1[b] == qp[b + 1]);
                }
                assert(!q1.contains(u)) by {
                    if q1.contains(u) {
                        let k = choose|k: int| 0 <= k < q1.len() && q1[k] == u;
                        assert(qp[k + 1] == qp[0]);
                    }
                }
                assert forall|x: usize| #[trigger] qp.contains(x) <==> (q1.contains(x) || x == u) by {
                    if qp.contains(x) {
                        let k = choose|k: int| 0 <= k < qp.len() && qp[k] == x;
                        if k > 0 {
                            assert(q1[k - 1] == x);
                        }
                    }
                    if q1.contains(x) {
                        let k = choose|k: int| 0 <= k < q1.len() && q1[k] == x;
                        assert(qp[k + 1] == x);
                    }
                }
                lemma_take_queued(nodes, failed, temp_in_degree@, qp, q1, u, done);
            }
            q_idx += 1;
            count += 1;
            let ghost done1 = done.push(u as int);
            let nb = &adj_list_rev[u];
            let mut j: usize = 0;
            while j < nb.len()
                invariant
                    j <= nb@.len(),
                    total_nodes == nodes.len() <= N,
                    failed.len() == N,
                    nb@ == dependents(nodes, failed, u as int, total_nodes as int),
                    done1 == done.push(u as int),
                    !done.contains(u as int),
                    live(nodes, failed, u as int),
                    pending(nodes[u as int].deps@, done) == 0,
                    dep_ordered(nodes, failed, done),
                    temp_in_degree@.len() == total_nodes,
                    q_idx <= q@.len(),
                    q@.skip(q_idx as int).no_duplicates(),
                    forall|k: int| 0 <= k < q@.skip(q_idx as int).len() ==> live(nodes, failed, #[trigger] q@.skip(q_idx as int)[k] as int) && !done1.contains(q@.skip(q_idx as int)[k] as int),
                    forall|v: int|
                        live(nodes, failed, v) && !done1.contains(v) ==> #[trigger] temp_in_degree@[v] + occurrences(
                            nb@.take(j as int),
                            v,
                        ) == pending(nodes[v].deps@, done) && (q@.skip(q_idx as int).contains(v as usize) <==> temp_in_degree@[v] == 0),
                decreases nb@.len() - j,
            {
                let v = nb[j];
                proof {
                    lemma_relax_target(nodes, failed, u, done, nb@, j as int);
                }
                let ghost pq0 = q@.skip(q_idx as int);
                temp_in_degree[v] = temp_in_degree[v] - 1;
                if temp_in_degree[v] == 0 {
                    q.push(v);
                }
                proof {
                    let pq = q@.skip(q_idx as int);
                    if pq != pq0 {
                        assert(pq =~= pq0.push(v));
                    } else {
                        assert(pq =~= pq0);
                    }
                    assert(nb@.take(j + 1).drop_last() =~= nb@.take(j as int));
                    assert forall|w: int|
                        live(nodes, failed, w) && !done1.contains(w) implies #[trigger] temp_in_degree@[w]
                            + occurrences(nb@.take(j + 1), w) == pending(nodes[w].deps@, done) && (pq.contains(w as usize)
                            <==> temp_in_degree@[w] == 0) by {
                        assert((w as usize) as int == w);
                        if pq.contains(w as usize) && !pq0.contains(w as usize) {
                            let k = choose|k: int| 0 <= k < pq.len() && pq[k] == w as usize;
                            if k < pq0.len() {
                                assert(pq0[k] == w as usize);
                            }
                        }
                        if pq0.contains(w as usize) {
                            let k = choose|k: int| 0 <= k < pq0.len() && pq0[k] == w as usize;
                            assert(pq[k] == w as usize);
                        }
                        if w == v && temp_in_degree@[w] == 0 {
                            assert(pq[pq0.len() as int] == w as usize);
                        }
                    }
                    if pq != pq0 {
                        assert forall|a: int, b: int| 0 <= a < b < pq.len() implies pq[a] != pq[b] by {
                            if b == pq0.len() {
                                assert(pq0.contains(pq0[a]));
                            }
                        }
                    }
                    assert forall|k: int| 0 <= k < pq.len() implies live(nodes, failed, #[trigger] pq[k] as int)
                        && !done1.contains(pq[k] as int) by {
                        if k < pq0.len() {
                            assert(pq[k] == pq0[k]);
                        }
                    }
                }
                j += 1;
            }
            proof {
                assert(nb@.take(nb@.len() as int) =~= nb@);
                lemma_relax_done(nodes, failed, temp_in_degree@, q@.skip(q_idx as int), u, done);
                done = done1;
            }
        }
        proof {
            assert(q@.skip(q_idx as int) =~= Seq::<usize>::empty());
            lemma_exhausted_order(nodes, failed, temp_in_degree@, done);
            lemma_kahn_order_orderable(nodes, failed, done);
            lemma_all_live_done(nodes, failed, done);
        }
        if count != total_nodes {
            return Err(ExplorerError::DependencyCycle);
        }
        let mut used: Vec<bool> = Vec::new();
        let mut k: usize = 0;
        while k < total_nodes
            invariant
                k <= total_nodes,
                used@.len() == k,
                forall|x: int| 0 <= x < k ==> !#[trigger] used@[x],
            decreases total_nodes - k,
        {
            used.push(false);
            k += 1;
        }
        let it = Self {
            sequence: explorer.sequence,
            total_nodes,
            current_permutation: Vec::new(),
            used,
            in_degree,
            adj_list_rev,
            path_stack: Vec::new(),
            search_from: 0,
            is_done: false,
            chosen: Ghost(Seq::empty()),
        };
        proof {
            assert forall|x: int| 0 <= x < total_nodes implies #[trigger] it.in_degree@[x] == pending(
                nodes[x].deps@,
                Seq::<int>::empty(),
            ) by {
                lemma_pending_empty(nodes[x].deps@);
            }
        }
        Ok(it)
    }
}

/// Command `x` can extend `path`: it is a command, not on the path, and all
/// its dependencies are.
pub open spec fn extends(nodes: Seq<CmdNode>, path: Seq<int>, x: int) -> bool {
    0 <= x < nodes.len() && !path.contains(x) && pending(nodes[x].deps@, path) == 0
}

/// `order` holds every one of the commands once, each after its dependencies.
pub open spec fn full_order(nodes: Seq<CmdNode>, failed: Seq<bool>, order: Seq<int>) -> bool {
    &&& order.len() == nodes.len()
    &&& order.no_duplicates()
    &&& dep_ordered(nodes, failed, order)
}

proof fn lemma_pending_le_len(s: Seq<usize>, done: Seq<int>)
    ensures
        pending(s, done) <= s.len(),
    decreases s.len(),
{
    if s.len() > 0 {
        lemma_pending_le_len(s.drop_last(), done);
    }
}

impl<'a, const N: usize> PermutationIter<'a, N> {
    /// Extends the path by the first command from the search start on that
    /// can extend it, and starts the search of the next level at the first
    /// command; false, with nothing changed, when there is none.
    fn try_extend(&mut self) -> (r: bool)
        requires
            old(self).wf(),
        ensures
            final(self).wf(),
            final(self).nodes() == old(self).nodes(),
            final(self).done() == old(self).done(),
            r ==> exists|x: int|
                #![trigger extends(old(self).nodes(), old(self).path(), x)]
                old(self).resume() <= x && extends(old(self).nodes(), old(self).path(), x)
                    && final(self).path() == old(self).path().push(x) && forall|y: int|
                    old(self).resume() <= y < x ==> !#[trigger] extends(
                        old(self).nodes(),
                        old(self).path(),
                        y,
                    ),
            r ==> final(self).resume() == 0,
            !r ==> final(self).resume() == old(self).resume(),
            !r ==> final(self).path() == old(self).path() && forall|y: int|
                old(self).resume() <= y ==> !#[trigger] extends(
                    old(self).nodes(),
                    old(self).path(),
                    y,
                ),
    {
        let ghost nodes = self.sequence@;
        let ghost failed = none_failed(N as nat);
        let ghost path = self.chosen@;
        let ghost start = self.search_from as int;
        let mut idx = self.search_from;
        while idx < self.total_nodes
            invariant
                self.wf(),
                self.sequence@ == nodes,
                self.chosen@ == path,
                self.is_done == old(self).done(),
                failed == none_failed(N as nat),
                self == old(self),
                start == old(self).resume(),
                start <= idx,
                forall|y: int| start <= y < idx ==> !#[trigger] extends(nodes, path, y),
            decreases self.total_nodes - idx,
        {
            proof {
                assert(self.used@[idx as int] == path.contains(idx as int));
                assert(self.in_degree@[idx as int] == pending(nodes[idx as int].deps@, path));
            }
            if self.used[idx] {
                idx += 1;
                continue;
            }
            if self.in_degree[idx] == 0 {
                let bytes = self.sequence[idx].bytes;
                self.current_permutation.push(bytes);
                self.used[idx] = true;
                let ghost path1 = path.push(idx as int);
                proof {
                    assert(live(nodes, failed, idx as int));
                    lemma_pending_zero(nodes[idx as int].deps@, path);
                    assert forall|a: int, b: int| 0 <= a < b < path1.len() implies path1[a] != path1[b] by {
                        if b == path.len() {
                            assert(path.contains(path[a]));
                        }
                    }
                    assert forall|k: int, j: int|
                        0 <= k < path1.len() && 0 <= j < nodes[path1[k]].deps@.len() implies path1.take(k).contains(
                        #[trigger] nodes[path1[k]].deps@[j] as int,
                    ) by {
                        if k < path.len() {
                            assert(path1.take(k) =~= path.take(k));
                            assert(path1[k] == path[k]);
                        } else {
                            assert(path1.take(k) =~= path);
                        }
                    }
                    assert forall|k: int| 0 <= k < path1.len() implies live(nodes, failed, #[trigger] path1[k]) by {
                        if k < path.len() {
                            assert(path1[k] == path[k]);
                        }
                    }
                }
                let ghost used1 = self.used@;
                let ghost perm1 = self.current_permutation@;
                let ghost stack0 = self.path_stack@;
                let ghost adj0 = self.adj_list_rev@;
                let ghost done0 = self.is_done;
                let nb = &self.adj_list_rev[idx];
                let mut j: usize = 0;
                while j < nb.len()
                    invariant
                        j <= nb@.len(),
                        nodes == self.sequence@,
                        self.used@ == used1,
                        self.current_permutation@ == perm1,
                        self.path_stack@ == stack0,
                        self.search_from == old(self).resume(),
                        self.adj_list_rev@ == adj0,
                        self.is_done == done0,
                        self.chosen@ == path,
                        self.total_nodes == nodes.len() <= N,
                        failed == none_failed(N as nat),
                        failed.len() == N,
                        nb@ == dependents(nodes, failed, idx as int, nodes.len() as int),
                        live(nodes, failed, idx as int),
                        !path.contains(idx as int),
                        pending(nodes[idx as int].deps@, path) == 0,
                        dep_ordered(nodes, failed, path),
                        start == old(self).resume(),
                        start <= idx,
                        forall|y: int| start <= y < idx ==> !#[trigger] extends(nodes, path, y),
                        path == old(self).path(),
                        nodes == old(self).nodes(),
                        self.in_degree@.len() == nodes.len(),
                        forall|x: int|
                            0 <= x < nodes.len() ==> #[trigger] self.in_degree@[x] + occurrences(nb@.take(j as int), x)
                                == pending(nodes[x].deps@, path),
                    decreases nb@.len() - j,
                {
                    let d = nb[j];
                    proof {
                        lemma_relax_target(nodes, failed, idx, path, nb@, j as int);
                        assert(nb@.take(j + 1).drop_last() =~= nb@.take(j as int));
                    }
                    self.in_degree[d] = self.in_degree[d] - 1;
                    j += 1;
                }
                self.path_stack.push(idx);
                self.search_from = 0;
                proof {
                    assert(nb@.take(nb@.len() as int) =~= nb@);
                    assert forall|x: int| 0 <= x < nodes.len() implies #[trigger] self.in_degree@[x] == pending(
                        nodes[x].deps@,
                        path1,
                    ) by {
                        lemma_dependents_count(nodes, failed, idx as int, nodes.len() as int, x);
                        lemma_count_le_pending(nodes[x].deps@, path, idx as int);
                    }
                    assert forall|x: int| 0 <= x < nodes.len() implies #[trigger] self.used@[x] == path1.contains(x) by {
                        if path1.contains(x) && x != idx {
                            let k = choose|k: int| 0 <= k < path1.len() && path1[k] == x;
                            assert(path[k] == x);
                        }
                        if path.contains(x) {
                            let k = choose|k: int| 0 <= k < path.len() && path[k] == x;
                            assert(path1[k] == x);
                        }
                        if x == idx {
                            assert(path1[path.len() as int] == x);
                        }
                    }
                    self.chosen = Ghost(path1);
                    assert(extends(nodes, path, idx as int));
                    assert(old(self).path() == path);
                    assert(old(self).nodes() == nodes);
                    assert(old(self).resume() <= idx);
                    assert(self.path() == old(self).path().push(idx as int));
                    assert(forall|y: int|
                        old(self).resume() <= y < idx ==> !#[trigger] extends(
                            old(self).nodes(),
                            old(self).path(),
                            y,
                        ));
                }
                return true;
            }
            proof {
                assert(!extends(nodes, path, idx as int));
            }
            idx += 1;
        }
        proof {
            assert forall|y: int| start <= y implies !#[trigger] extends(nodes, path, y) by {
                if start <= y < idx {
                }
            }
        }
        false
    }

    /// Removes the last command of the path and resumes the search at that
    /// level one past it; false, and the iterator done, when the path is
    /// empty.
    fn backtrack(&mut self) -> (r: bool)
        requires
            old(self).wf(),
        ensures
            final(self).wf(),
            final(self).nodes() == old(self).nodes(),
            old(self).path().len() == 0 ==> !r && final(self).done() && final(self).path() == old(self).path()
                && final(self).resume() == old(self).resume(),
            old(self).path().len() > 0 ==> {
                &&& r
                &&& final(self).path() == old(self).path().drop_last()
                &&& final(self).resume() == old(self).path().last() + 1
                &&& final(self).done() == old(self).done()
            },
    {
        let ghost nodes = self.sequence@;
        let ghost failed = none_failed(N as nat);
        let ghost path = self.chosen@;
        match self.path_stack.pop() {
            Some(last_added_idx) => {
                let ghost path0 = path.drop_last();
                proof {
                    assert(path.last() == last_added_idx as int);
                    assert(path =~= path0.push(last_added_idx as int));
                    assert(!path0.contains(last_added_idx as int)) by {
                        if path0.contains(last_added_idx as int) {
                            let k = choose|k: int| 0 <= k < path0.len() && path0[k] == last_added_idx as int;
                            assert(path[k] == path[path.len() - 1]);
                        }
                    }
                    assert(live(nodes, failed, path[path.len() - 1]));
                }
                self.current_permutation.pop();
                self.used[last_added_idx] = false;
                let ghost used1 = self.used@;
                let ghost perm1 = self.current_permutation@;
                let ghost stack0 = self.path_stack@;
                let ghost adj0 = self.adj_list_rev@;
                let ghost done0 = self.is_done;
                let nb = &self.adj_list_rev[last_added_idx];
                let mut j: usize = 0;
                while j < nb.len()
                    invariant
                        j <= nb@.len(),
                        nodes == self.sequence@,
                        self.used@ == used1,
                        self.current_permutation@ == perm1,
                        self.path_stack@ == stack0,
                        self.search_from == old(self).resume(),
                        self.adj_list_rev@ == adj0,
                        self.is_done == done0,
                        self.chosen@ == path,
                        self.total_nodes == nodes.len() <= N,
                        failed == none_failed(N as nat),
                        failed.len() == N,
                        deps_valid(nodes, failed),
                        nb@ == dependents(nodes, failed, last_added_idx as int, nodes.len() as int),
                        !path0.contains(last_added_idx as int),
                        0 <= last_added_idx < nodes.len(),
                        self.in_degree@.len() == nodes.len(),
                        forall|x: int|
                            0 <= x < nodes.len() ==> #[trigger] self.in_degree@[x] == pending(
                                nodes[x].deps@,
                                path0.push(last_added_idx as int),
                            ) + occurrences(nb@.take(j as int), x),
                    decreases nb@.len() - j,
                {
                    let d = nb[j];
                    proof {
                        lemma_dependents_live(nodes, failed, last_added_idx as int, nodes.len() as int);
                    }
                    let dep_count = self.sequence[d].deps.len();
                    proof {
                        lemma_dependents_count(nodes, failed, last_added_idx as int, nodes.len() as int, d as int);
                        assert(nb@.take(j + 1).drop_last() =~= nb@.take(j as int));
                        lemma_count_prefix(nb@, j + 1, d as int);
                        lemma_count_le_pending(nodes[d as int].deps@, path0, last_added_idx as int);
                        lemma_pending_le_len(nodes[d as int].deps@, path0);
                    }
                    self.in_degree[d] = self.in_degree[d] + 1;
                    j += 1;
                }
                self.search_from = last_added_idx + 1;
                proof {
                    assert(nb@.take(nb@.len() as int) =~= nb@);
                    assert forall|x: int| 0 <= x < nodes.len() implies #[trigger] self.in_degree@[x] == pending(
                        nodes[x].deps@,
                        path0,
                    ) by {
                        lemma_dependents_count(nodes, failed, last_added_idx as int, nodes.len() as int, x);
                        lemma_count_le_pending(nodes[x].deps@, path0, last_added_idx as int);
                    }
                    assert forall|x: int| 0 <= x < nodes.len() implies #[trigger] self.used@[x] == path0.contains(x) by {
                        if path.contains(x) && x != last_added_idx {
                            let k = choose|k: int| 0 <= k < path.len() && path[k] == x;
                            assert(path0[k] == x);
                        }
                        if path0.contains(x) {
                            let k = choose|k: int| 0 <= k < path0.len() && path0[k] == x;
                            assert(path[k] == x);
                        }
                    }
                    assert forall|k: int, j2: int|
                        0 <= k < path0.len() && 0 <= j2 < nodes[path0[k]].deps@.len() implies path0.take(k).contains(
                        #[trigger] nodes[path0[k]].deps@[j2] as int,
                    ) by {
                        assert(path0.take(k) =~= path.take(k));
                        assert(path0[k] == path[k]);
                    }
                    assert forall|k: int| 0 <= k < path0.len() implies live(nodes, failed, #[trigger] path0[k]) by {
                        assert(path0[k] == path[k]);
                    }
                    self.chosen = Ghost(path0);
                }
                true
            },
            None => {
                self.is_done = true;
                proof {
                    assert(path.len() == 0);
                }
                false
            },
        }
    }

    /// One round of the search for the next order: `None` to go on searching,
    /// `Some(None)` when the iterator has ended, `Some(Some(p))` with the
    /// bytes of the commands of a complete order. The search goes through the
    /// orders depth first, trying at each level the commands in increasing
    /// index from where that level's search stands.
    pub fn next_step(&mut self) -> (r: Option<Option<Vec<&'a [u8]>>>)
        requires
            old(self).wf(),
        ensures
            final(self).wf(),
            final(self).nodes() == old(self).nodes(),
            old(self).done() ==> r == Some(None::<Vec<&'a [u8]>>) && final(self).path() == old(self).path()
                && final(self).done() && final(self).resume() == old(self).resume(),
            !old(self).done() && old(self).path().len() == old(self).nodes().len() ==> {
                &&& r matches Some(Some(p)) && p@.len() == old(self).path().len() && forall|k: int|
                    0 <= k < p@.len() ==> #[trigger] p@[k] == old(self).nodes()[old(self).path()[k]].bytes
                &&& old(self).path().len() > 0 ==> {
                    &&& final(self).path() == old(self).path().drop_last()
                    &&& final(self).resume() == old(self).path().last() + 1
                    &&& !final(self).done()
                }
                &&& old(self).path().len() == 0 ==> final(self).done() && final(self).path() == old(self).path()
                    && final(self).resume() == old(self).resume()
            },
            !old(self).done() && old(self).path().len() < old(self).nodes().len() ==> {
                ||| {
                    &&& r is None
                    &&& !final(self).done()
                    &&& final(self).resume() == 0
                    &&& exists|x: int|
                        #![trigger extends(old(self).nodes(), old(self).path(), x)]
                        old(self).resume() <= x && extends(old(self).nodes(), old(self).path(), x)
                            && final(self).path() == old(self).path().push(x) && forall|y: int|
                            old(self).resume() <= y < x ==> !#[trigger] extends(
                                old(self).nodes(),
                                old(self).path(),
                                y,
                            )
                }
                ||| {
                    &&& forall|y: int|
                        old(self).resume() <= y ==> !#[trigger] extends(
                            old(self).nodes(),
                            old(self).path(),
                            y,
                        )
                    &&& old(self).path().len() > 0 ==> {
                        &&& r is None
                        &&& !final(self).done()
                        &&& final(self).path() == old(self).path().drop_last()
                        &&& final(self).resume() == old(self).path().last() + 1
                    }
                    &&& old(self).path().len() == 0 ==> {
                        &&& r == Some(None::<Vec<&'a [u8]>>)
                        &&& final(self).done()
                        &&& final(self).path() == old(self).path()
                        &&& final(self).resume() == old(self).resume()
                    }
                }
            },
            r matches Some(Some(p)) ==> full_order(old(self).nodes(), none_failed(N as nat), old(self).path()),
    {
        if self.is_done {
            return Some(None);
        }
        if self.current_permutation.len() == self.total_nodes {
            let mut full_sequence: Vec<&'a [u8]> = Vec::new();
            let mut k: usize = 0;
            while k < self.current_permutation.len()
                invariant
                    k <= self.current_permutation@.len(),
                    full_sequence@ == self.current_permutation@.take(k as int),
                decreases self.current_permutation@.len() - k,
            {
                full_sequence.push(self.current_permutation[k]);
                proof {
                    assert(self.current_permutation@.take(k + 1) =~= self.current_permutation@.take(
                        k as int,
                    ).push(self.current_permutation@[k as int]));
                }
                k += 1;
            }
            proof {
                assert(self.current_permutation@.take(self.current_permutation@.len() as int)
                    =~= self.current_permutation@);
            }
            self.backtrack();
            return Some(Some(full_sequence));
        }
        if self.try_extend() {
            return None;
        }
        if !self.backtrack() {
            return Some(None);
        }
        None
    }
}

/// A state of the order search: the path of commands chosen so far, where
/// the search for the command after it stands, and whether the search has
/// ended.
pub type SearchState = (Seq<int>, int, bool);

/// The first command from `from` on that can extend `path`, if any.
pub open spec fn first_extension(nodes: Seq<CmdNode>, path: Seq<int>, from: int) -> Option<int>
    decreases nodes.len() - from,
{
    if from < 0 || from >= nodes.len() {
        None
    } else if extends(nodes, path, from) {
        Some(from)
    } else {
        first_extension(nodes, path, from + 1)
    }
}

/// One round of the search from state `s`: the state it leaves, and what it
/// gives: `None` to go on, `Some(None)` once the search has ended, or
/// `Some(Some(order))` with a complete order of the commands. A complete
/// path is given and its last command taken back to try the next one; an
/// incomplete path is extended by the first command that can extend it, or,
/// where none can, its last command is taken back; the search ends when
/// there is nothing left to take back.
pub open spec fn search_step(nodes: Seq<CmdNode>, s: SearchState) -> (SearchState, Option<Option<Seq<int>>>) {
    let path = s.0;
    if s.2 {
        (s, Some(None))
    } else if path.len() == nodes.len() {
        if path.len() > 0 {
            ((path.drop_last(), path.last() + 1, false), Some(Some(path)))
        } else {
            ((path, s.1, true), Some(Some(path)))
        }
    } else {
        match first_extension(nodes, path, s.1) {
            Some(x) => ((path.push(x), 0, false), None),
            None => if path.len() > 0 {
                ((path.drop_last(), path.last() + 1, false), None)
            } else {
                ((path, s.1, true), Some(None))
            },
        }
    }
}

/// The state of the search after `k` rounds from `s`.
pub open spec fn search_after(nodes: Seq<CmdNode>, s: SearchState, k: nat) -> SearchState
    decreases k,
{
    if k == 0 {
        s
    } else {
        search_step(nodes, search_after(nodes, s, (k - 1) as nat)).0
    }
}

/// From `s`, the first `k` rounds go on searching and round `k` gives an
/// order or the end of the search.
pub open spec fn answers_at(nodes: Seq<CmdNode>, s: SearchState, k: nat) -> bool {
    &&& forall|j: nat| j < k ==> (#[trigger] search_step(nodes, search_after(nodes, s, j))).1 is None
    &&& search_step(nodes, search_after(nodes, s, k)).1 is Some
}

proof fn lemma_first_extension_found(nodes: Seq<CmdNode>, path: Seq<int>, from: int, x: int)
    requires
        0 <= from <= x,
        extends(nodes, path, x),
        forall|y: int| from <= y < x ==> !#[trigger] extends(nodes, path, y),
    ensures
        first_extension(nodes, path, from) == Some(x),
    decreases x - from,
{
    if from < x {
        lemma_first_extension_found(nodes, path, from + 1, x);
    }
}

proof fn lemma_first_extension_none(nodes: Seq<CmdNode>, path: Seq<int>, from: int)
    requires
        0 <= from,
        forall|y: int| from <= y ==> !#[trigger] extends(nodes, path, y),
    ensures
        first_extension(nodes, path, from) is None,
    decreases nodes.len() - from,
{
    if from < nodes.len() {
        assert(!extends(nodes, path, from));
        lemma_first_extension_none(nodes, path, from + 1);
    }
}

/// The digits of a search state with path `path` and resume point `resume`
/// over `n` commands: a chosen command `x` counts `2(n - x) + 1`, the level
/// being searched `2(n - resume) + 2`, and the levels below it 0. Each step of
/// the search makes this sequence smaller in lexicographic order.
pub open spec fn search_digits(path: Seq<int>, resume: int, n: int) -> Seq<int> {
    Seq::new(
        (n + 1) as nat,
        |i: int|
            if i < path.len() {
                2 * (n - path[i]) + 1
            } else if i == path.len() {
                2 * (n - resume) + 2
            } else {
                0
            },
    )
}

/// The number the first `k` digits of `ds` form in base `b`.
pub open spec fn digits_value(ds: Seq<int>, b: int, k: int) -> int
    decreases k,
{
    if k <= 0 {
        0
    } else {
        digits_value(ds, b, k - 1) * b + ds[k - 1]
    }
}

proof fn lemma_digits_value_nonneg(ds: Seq<int>, b: int, k: int)
    requires
        b >= 1,
        k <= ds.len(),
        forall|i: int| 0 <= i < ds.len() ==> 0 <= #[trigger] ds[i],
    ensures
        digits_value(ds, b, k) >= 0,
    decreases k,
{
    if k > 0 {
        lemma_digits_value_nonneg(ds, b, k - 1);
        let v = digits_value(ds, b, k - 1);
        assert(v * b >= 0) by (nonlinear_arith)
            requires
                v >= 0,
                b >= 1,
        ;
    }
}

proof fn lemma_digits_value_prefix(d1: Seq<int>, d2: Seq<int>, b: int, k: int)
    requires
        0 <= k <= d1.len(),
        k <= d2.len(),
        forall|i: int| 0 <= i < k ==> d1[i] == d2[i],
    ensures
        digits_value(d1, b, k) == digits_value(d2, b, k),
    decreases k,
{
    if k > 0 {
        lemma_digits_value_prefix(d1, d2, b, k - 1);
    }
}

/// A digit sequence smaller in lexicographic order has a smaller value.
proof fn lemma_digits_value_lex(d1: Seq<int>, d2: Seq<int>, b: int, j: int, k: int)
    requires
        d1.len() == d2.len(),
        0 <= j < k <= d1.len(),
        forall|i: int| 0 <= i < j ==> d1[i] == d2[i],
        d2[j] < d1[j],
        forall|i: int| 0 <= i < d1.len() ==> 0 <= #[trigger] d1[i] < b,
        forall|i: int| 0 <= i < d2.len() ==> 0 <= #[trigger] d2[i] < b,
    ensures
        digits_value(d2, b, k) < digits_value(d1, b, k),
    decreases k,
{
    if k == j + 1 {
        lemma_digits_value_prefix(d1, d2, b, j);
    } else {
        lemma_digits_value_lex(d1, d2, b, j, k - 1);
        let v1 = digits_value(d1, b, k - 1);
        let v2 = digits_value(d2, b, k - 1);
        let x1 = d1[k - 1];
        let x2 = d2[k - 1];
        assert(0 <= d1[0] < b);
        assert(v2 * b + x2 < v1 * b + x1) by (nonlinear_arith)
            requires
                v2 + 1 <= v1,
                0 <= x1,
                x2 < b,
                b >= 1,
        ;
    }
}

/// How much search is left: 0 once the search has ended, else one more than
/// the value of the state's digits in base `2n + 3`.
pub open spec fn search_measure(path: Seq<int>, resume: int, n: int, done: bool) -> int {
    if done {
        0
    } else {
        digits_value(search_digits(path, resume, n), 2 * n + 3, n + 1) + 1
    }
}

/// The digits of a state whose path holds distinct commands and whose resume
/// point is at most `n` lie below the base.
proof fn lemma_search_digits_bounded(path: Seq<int>, resume: int, n: int)
    requires
        path.len() <= n,
        forall|k: int| 0 <= k < path.len() ==> 0 <= #[trigger] path[k] < n,
        0 <= resume <= n,
    ensures
        forall|i: int|
            0 <= i < search_digits(path, resume, n).len() ==> 0 <= #[trigger] search_digits(
                path,
                resume,
                n,
            )[i] < 2 * n + 3,
        search_measure(path, resume, n, false) >= 1,
{
    let ds = search_digits(path, resume, n);
    assert forall|i: int| 0 <= i < ds.len() implies 0 <= #[trigger] ds[i] < 2 * n + 3 by {
        if i < path.len() {
            assert(0 <= path[i] < n);
        }
    }
    lemma_digits_value_nonneg(ds, 2 * n + 3, n + 1);
}

/// Extending the path by a command from the resume point on, and starting
/// the next level at 0, lowers the measure.
proof fn lemma_extend_lowers(path: Seq<int>, resume: int, x: int, n: int)
    requires
        path.len() < n,
        forall|k: int| 0 <= k < path.len() ==> 0 <= #[trigger] path[k] < n,
        0 <= resume <= x < n,
    ensures
        0 <= search_measure(path.push(x), 0, n, false) < search_measure(path, resume, n, false),
{
    let p2 = path.push(x);
    lemma_search_digits_bounded(path, resume, n);
    assert forall|k: int| 0 <= k < p2.len() implies 0 <= #[trigger] p2[k] < n by {
        if k < path.len() {
            assert(p2[k] == path[k]);
        }
    }
    lemma_search_digits_bounded(p2, 0, n);
    let d1 = search_digits(path, resume, n);
    let d2 = search_digits(p2, 0, n);
    assert forall|i: int| 0 <= i < path.len() implies d1[i] == d2[i] by {
        assert(p2[i] == path[i]);
    }
    lemma_digits_value_lex(d1, d2, 2 * n + 3, path.len() as int, n + 1);
}

/// Dropping the last command of the path and resuming one past it lowers
/// the measure.
proof fn lemma_backtrack_lowers(path: Seq<int>, resume: int, n: int)
    requires
        0 < path.len() <= n,
        forall|k: int| 0 <= k < path.len() ==> 0 <= #[trigger] path[k] < n,
        0 <= resume <= n,
    ensures
        0 <= search_measure(path.drop_last(), path.last() + 1, n, false) < search_measure(
            path,
            resume,
            n,
            false,
        ),
{
    let p2 = path.drop_last();
    let x = path.last();
    assert(0 <= path[path.len() - 1] < n);
    lemma_search_digits_bounded(path, resume, n);
    assert forall|k: int| 0 <= k < p2.len() implies 0 <= #[trigger] p2[k] < n by {
        assert(p2[k] == path[k]);
    }
    lemma_search_digits_bounded(p2, x + 1, n);
    let d1 = search_digits(path, resume, n);
    let d2 = search_digits(p2, x + 1, n);
    assert forall|i: int| 0 <= i < p2.len() implies d1[i] == d2[i] by {
        assert(p2[i] == path[i]);
    }
    lemma_digits_value_lex(d1, d2, 2 * n + 3, p2.len() as int, n + 1);
}

/// A search state of `nodes` that the search can be in: its path holds
/// commands, at most all of them, its resume point is at most the number of
/// commands, and a complete path is about to be given.
pub open spec fn search_ok(nodes: Seq<CmdNode>, s: SearchState) -> bool {
    let n = nodes.len() as int;
    &&& s.0.len() <= n
    &&& forall|k: int| 0 <= k < s.0.len() ==> 0 <= #[trigger] s.0[k] < n
    &&& 0 <= s.1 <= n
    &&& s.0.len() == n ==> s.1 == 0
}

/// How much search is left in state `s`.
pub open spec fn state_measure(nodes: Seq<CmdNode>, s: SearchState) -> int {
    search_measure(s.0, s.1, nodes.len() as int, s.2)
}

/// The state in which the search of `nodes` starts.
pub open spec fn search_start() -> SearchState {
    (Seq::empty(), 0, false)
}

proof fn lemma_first_extension_some(nodes: Seq<CmdNode>, path: Seq<int>, from: int, x: int)
    requires
        first_extension(nodes, path, from) == Some(x),
    ensures
        from <= x,
        extends(nodes, path, x),
    decreases nodes.len() - from,
{
    if 0 <= from < nodes.len() && !extends(nodes, path, from) {
        lemma_first_extension_some(nodes, path, from + 1, x);
    }
}

/// A round keeps a state the search can be in, and, unless the search had
/// ended, lowers how much search is left.
proof fn lemma_step_ok(nodes: Seq<CmdNode>, s: SearchState)
    requires
        search_ok(nodes, s),
    ensures
        search_ok(nodes, search_step(nodes, s).0),
        !s.2 ==> 0 <= state_measure(nodes, search_step(nodes, s).0) < state_measure(nodes, s),
        s.2 ==> search_step(nodes, s).0.2,
{
    let n = nodes.len() as int;
    let path = s.0;
    if !s.2 {
        lemma_search_digits_bounded(path, s.1, n);
        lemma_digits_value_nonneg(search_digits(path, s.1, n), 2 * n + 3, n + 1);
        if path.len() == n {
            if path.len() > 0 {
                lemma_backtrack_lowers(path, s.1, n);
            }
        } else {
            match first_extension(nodes, path, s.1) {
                Some(x) => {
                    lemma_first_extension_some(nodes, path, s.1, x);
                    lemma_extend_lowers(path, s.1, x, n);
                    let p2 = path.push(x);
                    assert forall|k: int| 0 <= k < p2.len() implies 0 <= #[trigger] p2[k] < n by {
                        if k < path.len() {
                            assert(p2[k] == path[k]);
                        }
                    }
                },
                None => {
                    if path.len() > 0 {
                        lemma_backtrack_lowers(path, s.1, n);
                    }
                },
            }
        }
    }
}

/// `k` rounds from the state `d` rounds after `s` is `d + k` rounds after `s`.
proof fn lemma_after_after(nodes: Seq<CmdNode>, s: SearchState, d: nat, k: nat)
    ensures
        search_after(nodes, search_after(nodes, s, d), k) == search_after(nodes, s, d + k),
    decreases k,
{
    if k > 0 {
        lemma_after_after(nodes, s, d, (k - 1) as nat);
        assert((d + k - 1) as nat == d + (k - 1) as nat);
    }
}

/// Every state the search reaches is one it can be in.
proof fn lemma_after_ok(nodes: Seq<CmdNode>, s: SearchState, k: nat)
    requires
        search_ok(nodes, s),
    ensures
        search_ok(nodes, search_after(nodes, s, k)),
    decreases k,
{
    if k > 0 {
        lemma_after_ok(nodes, s, (k - 1) as nat);
        lemma_step_ok(nodes, search_after(nodes, s, (k - 1) as nat));
    }
}

/// While the search goes on, how much of it is left keeps falling.
proof fn lemma_measure_falls(nodes: Seq<CmdNode>, s: SearchState, d: nat)
    requires
        search_ok(nodes, s),
        d > 0,
        !search_after(nodes, s, d).2,
    ensures
        !s.2,
        state_measure(nodes, search_after(nodes, s, d)) < state_measure(nodes, s),
    decreases d,
{
    let prev = search_after(nodes, s, (d - 1) as nat);
    lemma_after_ok(nodes, s, (d - 1) as nat);
    lemma_step_ok(nodes, prev);
    if d > 1 {
        lemma_measure_falls(nodes, s, (d - 1) as nat);
    }
}

/// The search of the orders of any commands ends: from every state it can
/// be in, some number of rounds brings it to its end.
pub proof fn law_search_ends(nodes: Seq<CmdNode>, s: SearchState)
    requires
        search_ok(nodes, s),
    ensures
        exists|k: nat| #[trigger] search_after(nodes, s, k).2,
    decreases state_measure(nodes, s),
{
    if s.2 {
        assert(search_after(nodes, s, 0).2);
    } else {
        lemma_step_ok(nodes, s);
        let next = search_step(nodes, s).0;
        law_search_ends(nodes, next);
        let k = choose|k: nat| #[trigger] search_after(nodes, next, k).2;
        lemma_after_after(nodes, s, 1, k);
        assert(search_after(nodes, s, 0) == s);
        assert(search_after(nodes, s, 1) == next);
        assert(search_after(nodes, s, 1 + k).2);
    }
}

/// The search in state `s` has not yet passed the order `o`: either its path
/// is the start of `o` and the search of the next command has not gone
/// beyond the one `o` takes, or the path left `o` for a command that comes
/// before the one `o` takes.
pub open spec fn not_passed(o: Seq<int>, s: SearchState) -> bool {
    let path = s.0;
    let m = path.len() as int;
    &&& !s.2
    &&& m <= o.len()
    &&& {
        ||| o.take(m) == path && (m == o.len() || s.1 <= o[m])
        ||| exists|i: int| 0 <= i < m && #[trigger] path[i] < o[i] && o.take(i) == path.take(i)
    }
}

/// The command a complete order takes after its first `m` commands can
/// extend them.
proof fn lemma_order_extends(nodes: Seq<CmdNode>, n: nat, o: Seq<int>, m: int)
    requires
        full_order(nodes, none_failed(n), o),
        0 <= m < o.len(),
    ensures
        extends(nodes, o.take(m), o[m]),
{
    let failed = none_failed(n);
    let path = o.take(m);
    assert(live(nodes, failed, o[m]));
    if path.contains(o[m]) {
        let k = choose|k: int| 0 <= k < path.len() && path[k] == o[m];
        assert(o[k] == o[m]);
    }
    let deps = nodes[o[m]].deps@;
    assert forall|j: int| 0 <= j < deps.len() implies path.contains(#[trigger] deps[j] as int) by {
        assert(o.take(m).contains(nodes[o[m]].deps@[j] as int));
    }
    lemma_pending_zero(deps, path);
}

proof fn lemma_first_extension_none_all(nodes: Seq<CmdNode>, path: Seq<int>, from: int, y: int)
    requires
        first_extension(nodes, path, from) is None,
        0 <= from <= y,
    ensures
        !extends(nodes, path, y),
    decreases y - from,
{
    if from < y && from < nodes.len() {
        lemma_first_extension_none_all(nodes, path, from + 1, y);
    }
}

/// A round from a state that has not passed `o` gives `o`, or leaves a
/// state that has not passed it either.
proof fn lemma_step_not_passed(nodes: Seq<CmdNode>, n: nat, o: Seq<int>, s: SearchState)
    requires
        full_order(nodes, none_failed(n), o),
        search_ok(nodes, s),
        not_passed(o, s),
    ensures
        search_step(nodes, s).1 == Some(Some(o)) || not_passed(o, search_step(nodes, s).0),
{
    let path = s.0;
    let m = path.len() as int;
    let len = nodes.len() as int;
    let next = search_step(nodes, s).0;
    let on_track = o.take(m) == path && (m == o.len() || s.1 <= o[m]);
    if m == len {
        if on_track {
            assert(o.take(m) =~= o);
        } else {
            let i = choose|i: int| 0 <= i < m && #[trigger] path[i] < o[i] && o.take(i) == path.take(i);
            if m > 0 {
                let p2 = path.drop_last();
                if i < m - 1 {
                    assert(p2[i] == path[i]);
                    assert(p2.take(i) =~= path.take(i));
                } else {
                    assert(p2 =~= path.take(i));
                    assert(o.take(m - 1) == p2);
                }
            }
        }
    } else {
        match first_extension(nodes, path, s.1) {
            Some(x) => {
                lemma_first_extension_some(nodes, path, s.1, x);
                let p2 = path.push(x);
                if on_track {
                    lemma_order_extends(nodes, n, o, m);
                    lemma_first_extension_found_below(nodes, path, s.1, x, o[m]);
                    if x == o[m] {
                        assert(o.take(m + 1) =~= p2);
                    } else {
                        assert(p2[m] < o[m]);
                        assert(o.take(m) == p2.take(m));
                    }
                } else {
                    let i = choose|i: int| 0 <= i < m && #[trigger] path[i] < o[i] && o.take(i) == path.take(i);
                    assert(p2[i] == path[i]);
                    assert(p2.take(i) =~= path.take(i));
                }
            },
            None => {
                if on_track {
                    lemma_order_extends(nodes, n, o, m);
                    lemma_first_extension_none_all(nodes, path, s.1, o[m]);
                    assert(false);
                } else {
                    let i = choose|i: int| 0 <= i < m && #[trigger] path[i] < o[i] && o.take(i) == path.take(i);
                    let p2 = path.drop_last();
                    if i < m - 1 {
                        assert(p2[i] == path[i]);
                        assert(p2.take(i) =~= path.take(i));
                    } else {
                        assert(p2 =~= path.take(i));
                        assert(o.take(m - 1) == p2);
                    }
                }
            },
        }
    }
}

/// The first extension from `from` is at most any command from `from` on
/// that extends the path.
proof fn lemma_first_extension_found_below(nodes: Seq<CmdNode>, path: Seq<int>, from: int, x: int, y: int)
    requires
        first_extension(nodes, path, from) == Some(x),
        0 <= from <= y,
        extends(nodes, path, y),
    ensures
        x <= y,
    decreases y - from,
{
    if from < y && !extends(nodes, path, from) {
        lemma_first_extension_found_below(nodes, path, from + 1, x, y);
    }
}

proof fn lemma_reaches(nodes: Seq<CmdNode>, n: nat, o: Seq<int>, s: SearchState)
    requires
        full_order(nodes, none_failed(n), o),
        search_ok(nodes, s),
        not_passed(o, s),
    ensures
        exists|k: nat| #[trigger] search_step(nodes, search_after(nodes, s, k)).1 == Some(Some(o)),
    decreases state_measure(nodes, s),
{
    assert(search_after(nodes, s, 0) == s);
    if search_step(nodes, s).1 != Some(Some(o)) {
        lemma_step_not_passed(nodes, n, o, s);
        lemma_step_ok(nodes, s);
        let next = search_step(nodes, s).0;
        lemma_reaches(nodes, n, o, next);
        let k = choose|k: nat| #[trigger] search_step(nodes, search_after(nodes, next, k)).1 == Some(Some(o));
        assert(search_after(nodes, s, 1) == next);
        lemma_after_after(nodes, s, 1, k);
        assert(search_step(nodes, search_after(nodes, s, 1 + k)).1 == Some(Some(o)));
    }
}

/// Every order of the commands, each after its dependencies, is given by
/// some round of the search from its start.
pub proof fn law_every_order_given(nodes: Seq<CmdNode>, n: nat, o: Seq<int>)
    requires
        full_order(nodes, none_failed(n), o),
    ensures
        exists|k: nat| #[trigger] search_step(nodes, search_after(nodes, search_start(), k)).1 == Some(Some(o)),
{
    let s0 = search_start();
    assert(o.take(0) =~= Seq::<int>::empty());
    if o.len() > 0 {
        assert(live(nodes, none_failed(n), o[0]));
    }
    lemma_reaches(nodes, n, o, s0);
}

/// No order of the commands is given twice: two different rounds of the
/// search from its start never give the same complete order.
pub proof fn law_order_given_once(nodes: Seq<CmdNode>, j: nat, k: nat, order: Seq<int>)
    requires
        j < k,
        search_step(nodes, search_after(nodes, search_start(), j)).1 == Some(Some(order)),
    ensures
        search_step(nodes, search_after(nodes, search_start(), k)).1 != Some(Some(order)),
{
    let s0 = search_start();
    let sj = search_after(nodes, s0, j);
    let sk = search_after(nodes, s0, k);
    lemma_after_ok(nodes, s0, j);
    lemma_after_ok(nodes, s0, k);
    if search_step(nodes, sk).1 == Some(Some(order)) {
        assert(sj == (order, 0int, false));
        assert(sk == (order, 0int, false));
        lemma_after_after(nodes, s0, j, (k - j) as nat);
        assert(j + (k - j) as nat == k);
        lemma_measure_falls(nodes, sj, (k - j) as nat);
        assert(false);
    }
}

proof fn lemma_scan_error_kinds(dl: Seq<usize>, len: int, cap: int)
    ensures
        scan_error(dl, len, cap) matches Some(e) ==> e == ExplorerError::InvalidDependencyIndex || e
            == ExplorerError::BufferOverflow,
    decreases dl.len(),
{
    if dl.len() > 0 {
        lemma_scan_error_kinds(dl.drop_last(), len, cap);
    }
}

impl<'a, const N: usize> PermutationIter<'a, N> {
    /// How much search is left.
    pub open spec fn measure(&self) -> int {
        search_measure(self.path(), self.resume(), self.nodes().len() as int, self.done())
    }

    /// A well-formed iterator's path holds distinct commands and its resume
    /// point is at most the number of commands.
    pub proof fn lemma_wf_bounds(&self)
        requires
            self.wf(),
        ensures
            self.path().len() <= self.nodes().len(),
            forall|k: int| 0 <= k < self.path().len() ==> 0 <= #[trigger] self.path()[k] < self.nodes().len(),
            0 <= self.resume() <= self.nodes().len(),
            self.measure() >= 0,
            !self.done() ==> self.measure() >= 1,
    {
        let path = self.path();
        let n = self.nodes().len() as int;
        assert forall|k: int| 0 <= k < path.len() implies 0 <= #[trigger] path[k] < n by {
            assert(live(self.nodes(), none_failed(N as nat), path[k]));
        }
        lemma_distinct_bounded(path, n);
        if !self.done() {
            lemma_search_digits_bounded(path, self.resume(), n);
        }
    }

    /// The next order of the search, or `None` once it has ended: the
    /// search goes on, round after round, until a round gives an order or
    /// ends the search. Each call lowers how much search is left, unless the
    /// search had already ended.
    pub fn next_order(&mut self) -> (r: Option<Vec<&'a [u8]>>)
        requires
            old(self).wf(),
        ensures
            exists|k: nat|
                #[trigger] answers_at(old(self).nodes(), old(self).state(), k) && {
                    let last = search_step(old(self).nodes(), search_after(old(self).nodes(), old(self).state(), k));
                    &&& final(self).state() == last.0
                    &&& match last.1 {
                        Some(Some(order)) => r matches Some(p) && p@.len() == order.len() && forall|i: int|
                            0 <= i < p@.len() ==> #[trigger] p@[i] == old(self).nodes()[order[i]].bytes,
                        _ => r is None,
                    }
                },
            final(self).wf(),
            final(self).nodes() == old(self).nodes(),
            r is None ==> final(self).done(),
            old(self).done() ==> r is None,
            !old(self).done() ==> final(self).measure() < old(self).measure(),
            r matches Some(p) ==> exists|order: Seq<int>|
                #[trigger] full_order(old(self).nodes(), none_failed(N as nat), order) && p@.len()
                    == order.len() && forall|k: int|
                    0 <= k < p@.len() ==> #[trigger] p@[k] == old(self).nodes()[order[k]].bytes,
    {
        let ghost m0 = self.measure();
        let ghost done0 = self.done();
        let ghost nodes = self.nodes();
        let ghost s0 = self.state();
        let ghost mut k: nat = 0;
        loop
            invariant
                self.wf(),
                self.nodes() == old(self).nodes(),
                nodes == old(self).nodes(),
                s0 == old(self).state(),
                self.state() == search_after(nodes, s0, k),
                forall|j: nat| j < k ==> (#[trigger] search_step(nodes, search_after(nodes, s0, j))).1 is None,
                done0 == old(self).done(),
                m0 == old(self).measure(),
                !done0 ==> self.measure() <= m0,
                !done0 ==> !self.done(),
                done0 ==> self.done(),
                done0 ==> self.path() == old(self).path(),
            decreases self.measure(),
        {
            let ghost path0 = self.path();
            let ghost resume0 = self.resume();
            let ghost was_done = self.done();
            let ghost meas0 = self.measure();
            let ghost n = self.nodes().len() as int;
            proof {
                self.lemma_wf_bounds();
            }
            let ghost st = self.state();
            let step = self.next_step();
            proof {
                let path0 = st.0;
                if !st.2 && path0.len() < nodes.len() {
                    if self.path().len() > path0.len() {
                        let x = choose|x: int|
                            #![trigger extends(nodes, path0, x)]
                            st.1 <= x && extends(nodes, path0, x) && self.path() == path0.push(x) && forall|y: int|
                                st.1 <= y < x ==> !#[trigger] extends(nodes, path0, y);
                        lemma_first_extension_found(nodes, path0, st.1, x);
                    } else {
                        lemma_first_extension_none(nodes, path0, st.1);
                    }
                }
                assert(self.state() == search_step(nodes, st).0);
                assert(match search_step(nodes, st).1 {
                    None => step is None,
                    Some(None) => step == Some(None::<Vec<&'a [u8]>>),
                    Some(Some(order)) => step matches Some(Some(p)) && p@.len() == order.len() && forall|i: int|
                        0 <= i < p@.len() ==> #[trigger] p@[i] == nodes[order[i]].bytes,
                });
                self.lemma_wf_bounds();
                if !was_done {
                    if path0.len() == n {
                        if path0.len() > 0 {
                            lemma_backtrack_lowers(path0, resume0, n);
                        }
                    } else if self.path().len() > path0.len() {
                        let x = self.path().last();
                        assert(self.path() == path0.push(x));
                        lemma_extend_lowers(path0, resume0, x, n);
                    } else if path0.len() > 0 {
                        lemma_backtrack_lowers(path0, resume0, n);
                    }
                    assert(self.measure() < meas0);
                }
            }
            proof {
                assert(search_after(nodes, s0, k + 1) == search_step(nodes, search_after(nodes, s0, k)).0);
            }
            match step {
                Some(r) => {
                    proof {
                        assert(answers_at(nodes, s0, k));
                    }
                    return r;
                },
                None => {
                    proof {
                        assert forall|j: nat| j < k + 1 implies (#[trigger] search_step(
                            nodes,
                            search_after(nodes, s0, j),
                        )).1 is None by {
                            if j == k {
                            }
                        }
                        k = k + 1;
                    }
                },
            }
        }
    }
}

/// What an exploration found: the addresses whose device accepted a whole
/// order of the commands, and the number of orders tried.
pub struct ExploreResult {
    pub found_addrs: heapless::Vec<u8, 128>,
    pub permutations_tested: usize,
}

/// How far an exploration has got.
pub struct ExploreProgress {
    found_addrs: heapless::Vec<u8, 128>,
    solved_addrs: [bool; 128],
    permutations_tested: usize,
}

/// The addresses from `0x03` up to (not including) `end` that are marked in
/// both `unsolved` and `accepted`, in increasing order.
pub open spec fn newly_found(unsolved: Seq<bool>, accepted: Seq<bool>, end: int) -> Seq<u8>
    decreases end,
{
    if end <= 3 {
        Seq::empty()
    } else {
        newly_found(unsolved, accepted, end - 1) + (if unsolved[end - 1] && accepted[end - 1] {
            seq![(end - 1) as u8]
        } else {
            Seq::empty()
        })
    }
}

impl ExploreProgress {
    /// The addresses found so far, in the order found.
    pub closed spec fn found(&self) -> Seq<u8> {
        device_list(self.found_addrs)
    }

    /// The number of orders tried so far.
    pub closed spec fn tested(&self) -> nat {
        self.permutations_tested as nat
    }

    /// Which addresses are still to be found.
    pub closed spec fn unsolved(&self) -> Seq<bool> {
        Seq::new(128, |a: int| !self.solved_addrs@[a])
    }

    /// The number of orders tried so far.
    pub fn tested_count(&self) -> (r: usize)
        ensures
            r == self.tested(),
    {
        self.permutations_tested
    }

    /// The found addresses are distinct scanned addresses, exactly those
    /// marked as solved.
    pub closed spec fn wf(&self) -> bool {
        &&& self.solved_addrs@.len() == 128
        &&& self.found().len() > 0 ==> self.permutations_tested >= 1
        &&& self.found().no_duplicates()
        &&& forall|k: int| 0 <= k < self.found().len() ==> 3 <= #[trigger] self.found()[k] <= 0x77
        &&& forall|a: int| 0 <= a < 128 ==> (#[trigger] self.solved_addrs@[a] <==> self.found().contains(a as u8))
    }
}

proof fn lemma_scan_addrs_bounded(s: Seq<u8>)
    requires
        s.no_duplicates(),
        forall|k: int| 0 <= k < s.len() ==> 3 <= #[trigger] s[k] <= 0x77,
    ensures
        s.len() <= 117,
{
    let t = s.map_values(|b: u8| b as int);
    assert forall|a: int, b: int| 0 <= a < b < t.len() implies t[a] != t[b] by {
        assert(s[a] != s[b]);
    }
    assert forall|k: int| 0 <= k < t.len() implies 0 <= #[trigger] t[k] - 3 < 117 by {
        assert(t[k] == s[k] as int);
    }
    let u = t.map_values(|x: int| x - 3);
    assert forall|a: int, b: int| 0 <= a < b < u.len() implies u[a] != u[b] by {
        assert(t[a] != t[b]);
    }
    assert forall|k: int| 0 <= k < u.len() implies 0 <= #[trigger] u[k] < 117 by {
        assert(u[k] == t[k] - 3);
    }
    lemma_distinct_bounded(u, 117);
}

/// The bytes of the commands of `order`, one after the other.
pub open spec fn commands_bytes(nodes: Seq<CmdNode>, order: Seq<int>) -> Seq<Seq<u8>> {
    Seq::new(order.len(), |k: int| nodes[order[k]].bytes@)
}

/// What the try of order `t` sent to address `a`.
pub open spec fn run_of(runs: Seq<Seq<Seq<ExecCall>>>, t: int, a: int) -> Seq<ExecCall> {
    runs[t][a - 3]
}

/// Address `a` accepted a whole order among the first `upto` tried.
pub open spec fn accepted_by(tried: Seq<Seq<Seq<u8>>>, runs: Seq<Seq<Seq<ExecCall>>>, a: int, upto: int) -> bool {
    exists|t: int| 0 <= t < upto && #[trigger] run_accepted(tried[t], run_of(runs, t, a))
}

/// Every executor call of the tries, one try after the other.
pub open spec fn all_calls(runs: Seq<Seq<Seq<ExecCall>>>) -> Seq<ExecCall> {
    runs.map_values(|r: Seq<Seq<ExecCall>>| r.flatten()).flatten()
}

/// An exploration of `nodes` over at most `n` commands that tried the orders
/// `tried`, each the bytes of a complete order of the commands, one after the
/// other: try `t` sent the order, command by command until one was refused,
/// to each address from `0x03` to `0x77` that had accepted no earlier order,
/// as the runs `runs` record, through the executor calls that
/// `states` and `buses` trace; `found` holds exactly the addresses that
/// accepted a whole order.
pub open spec fn explore_trace<I2C, E: CmdExecutor<I2C, BUF_CAP>, const BUF_CAP: usize>(
    nodes: Seq<CmdNode>,
    n: nat,
    tried: Seq<Seq<Seq<u8>>>,
    runs: Seq<Seq<Seq<ExecCall>>>,
    states: Seq<E>,
    buses: Seq<I2C>,
    found: Seq<u8>,
) -> bool {
    &&& tried.len() == runs.len()
    &&& forall|t: int|
        #![trigger tried[t]]
        0 <= t < tried.len() ==> exists|o: Seq<int>|
            #[trigger] full_order(nodes, none_failed(n), o) && tried[t] == commands_bytes(nodes, o)
    &&& forall|t: int| 0 <= t < runs.len() ==> (#[trigger] runs[t]).len() == 117
    &&& forall|t: int, a: int|
        0 <= t < tried.len() && 3 <= a <= 0x77 ==> if accepted_by(tried, runs, a, t) {
            (#[trigger] run_of(runs, t, a)).len() == 0
        } else {
            order_run(a as u8, tried[t], run_of(runs, t, a))
        }
    &&& forall|a: int| 3 <= a <= 0x77 ==> (found.contains(a as u8) <==> #[trigger] accepted_by(tried, runs, a, tried.len() as int))
    &&& exec_trace::<I2C, E, BUF_CAP>(states, buses, all_calls(runs))
}

/// The addresses an exploration that ended in `r` found.
pub open spec fn explore_found(r: Result<ExploreResult, ExplorerError>) -> Seq<u8> {
    match r {
        Ok(res) => device_list(res.found_addrs),
        Err(_) => Seq::empty(),
    }
}

proof fn lemma_accepted_by_frame(
    tried: Seq<Seq<Seq<u8>>>,
    runs: Seq<Seq<Seq<ExecCall>>>,
    ord: Seq<Seq<u8>>,
    run: Seq<Seq<ExecCall>>,
    a: int,
    upto: int,
)
    requires
        tried.len() == runs.len(),
        upto <= tried.len(),
    ensures
        accepted_by(tried.push(ord), runs.push(run), a, upto) == accepted_by(tried, runs, a, upto),
{
    let t2 = tried.push(ord);
    let r2 = runs.push(run);
    if accepted_by(t2, r2, a, upto) {
        let t = choose|t: int| 0 <= t < upto && #[trigger] run_accepted(t2[t], run_of(r2, t, a));
        assert(t2[t] == tried[t]);
        assert(run_of(r2, t, a) == run_of(runs, t, a));
    }
    if accepted_by(tried, runs, a, upto) {
        let t = choose|t: int| 0 <= t < upto && #[trigger] run_accepted(tried[t], run_of(runs, t, a));
        assert(t2[t] == tried[t]);
        assert(run_of(r2, t, a) == run_of(runs, t, a));
    }
}

/// One more order tried, as `explore_order` states it, extends an
/// exploration trace.
proof fn lemma_explore_step<I2C, E: CmdExecutor<I2C, BUF_CAP>, const BUF_CAP: usize>(
    nodes: Seq<CmdNode>,
    n: nat,
    tried: Seq<Seq<Seq<u8>>>,
    runs: Seq<Seq<Seq<ExecCall>>>,
    states: Seq<E>,
    buses: Seq<I2C>,
    found0: Seq<u8>,
    o: Seq<int>,
    run_t: Seq<Seq<ExecCall>>,
    states_t: Seq<E>,
    buses_t: Seq<I2C>,
    unsolved: Seq<bool>,
    accepted: Seq<bool>,
    found1: Seq<u8>,
)
    requires
        nodes.len() > 0,
        explore_trace::<I2C, E, BUF_CAP>(nodes, n, tried, runs, states, buses, found0),
        full_order(nodes, none_failed(n), o),
        exec_trace::<I2C, E, BUF_CAP>(states_t, buses_t, run_t.flatten()),
        states_t[0] == states.last(),
        buses_t[0] == buses.last(),
        run_t.len() == 117,
        forall|a: int|
            3 <= a <= 0x77 ==> if unsolved[a] {
                order_run(a as u8, commands_bytes(nodes, o), #[trigger] run_t[a - 3])
            } else {
                run_t[a - 3].len() == 0
            },
        forall|a: int|
            3 <= a <= 0x77 ==> #[trigger] accepted[a] == (unsolved[a] && run_accepted(
                commands_bytes(nodes, o),
                run_t[a - 3],
            )),
        forall|a: int| 3 <= a <= 0x77 ==> (#[trigger] unsolved[a] <==> !found0.contains(a as u8)),
        found1 == found0 + newly_found(unsolved, accepted, 0x78),
    ensures
        explore_trace::<I2C, E, BUF_CAP>(
            nodes,
            n,
            tried.push(commands_bytes(nodes, o)),
            runs.push(run_t),
            states + states_t.drop_first(),
            buses + buses_t.drop_first(),
            found1,
        ),
        (states + states_t.drop_first())[0] == states[0],
        (buses + buses_t.drop_first())[0] == buses[0],
        (states + states_t.drop_first()).last() == states_t.last(),
        (buses + buses_t.drop_first()).last() == buses_t.last(),
{
    let ord = commands_bytes(nodes, o);
    let t2 = tried.push(ord);
    let r2 = runs.push(run_t);
    let big = tried.len() as int;
    let f = |r: Seq<Seq<ExecCall>>| r.flatten();
    assert(r2.map_values(f) =~= runs.map_values(f).push(run_t.flatten()));
    runs.map_values(f).lemma_flatten_push(run_t.flatten());
    assert(all_calls(r2) == all_calls(runs) + run_t.flatten());
    lemma_trace_concat::<I2C, E, BUF_CAP>(states, buses, all_calls(runs), states_t, buses_t, run_t.flatten());
    assert forall|t: int| #![trigger t2[t]] 0 <= t < t2.len() implies exists|o2: Seq<int>|
        #[trigger] full_order(nodes, none_failed(n), o2) && t2[t] == commands_bytes(nodes, o2) by {
        if t < big {
            assert(t2[t] == tried[t]);
            assert(exists|o2: Seq<int>| #[trigger] full_order(nodes, none_failed(n), o2) && tried[t] == commands_bytes(nodes, o2));
        } else {
            assert(t2[t] == ord);
        }
    }
    assert forall|t: int| 0 <= t < r2.len() implies (#[trigger] r2[t]).len() == 117 by {
        if t < big {
            assert(r2[t] == runs[t]);
        }
    }
    assert forall|t: int, a: int|
        0 <= t < t2.len() && 3 <= a <= 0x77 implies if accepted_by(t2, r2, a, t) {
        (#[trigger] run_of(r2, t, a)).len() == 0
    } else {
        order_run(a as u8, t2[t], run_of(r2, t, a))
    } by {
        lemma_accepted_by_frame(tried, runs, ord, run_t, a, t);
        if t < big {
            assert(run_of(r2, t, a) == run_of(runs, t, a));
            assert(t2[t] == tried[t]);
            assert(run_of(runs, t, a) == run_of(runs, t, a));
        } else {
            assert(run_of(r2, t, a) == run_t[a - 3]);
            assert(t2[t] == ord);
            assert(unsolved[a] <==> !found0.contains(a as u8));
            assert(found0.contains(a as u8) <==> accepted_by(tried, runs, a, big));
        }
    }
    assert forall|a: int| 3 <= a <= 0x77 implies (found1.contains(a as u8) <==> #[trigger] accepted_by(
        t2,
        r2,
        a,
        t2.len() as int,
    )) by {
        lemma_accepted_by_frame(tried, runs, ord, run_t, a, big);
        lemma_newly_found_contains(unsolved, accepted, 0x78, a);
        let nf = newly_found(unsolved, accepted, 0x78);
        assert(found0.contains(a as u8) <==> accepted_by(tried, runs, a, big));
        assert(unsolved[a] <==> !found0.contains(a as u8));
        assert(accepted[a] == (unsolved[a] && run_accepted(ord, run_t[a - 3])));
        assert(run_of(r2, big, a) == run_t[a - 3]);
        assert(t2[big] == ord);
        if found1.contains(a as u8) {
            let k = choose|k: int| 0 <= k < found1.len() && found1[k] == a as u8;
            if k < found0.len() {
                assert(found0[k] == a as u8);
            } else {
                assert(nf[k - found0.len()] == a as u8);
                assert(nf.contains(a as u8));
                assert(run_accepted(t2[big], run_of(r2, big, a)));
            }
        }
        if accepted_by(t2, r2, a, big + 1) {
            let t = choose|t: int| 0 <= t < big + 1 && #[trigger] run_accepted(t2[t], run_of(r2, t, a));
            if t == big {
                if !found0.contains(a as u8) {
                    assert(nf.contains(a as u8));
                    let k = choose|k: int| 0 <= k < nf.len() && nf[k] == a as u8;
                    assert(found1[found0.len() + k] == a as u8);
                }
            } else {
                assert(accepted_by(t2, r2, a, big));
            }
            if found0.contains(a as u8) {
                let k = choose|k: int| 0 <= k < found0.len() && found0[k] == a as u8;
                assert(found1[k] == a as u8);
            }
        }
    }
}

/// Two traces, the second starting where the first ends, make one.
proof fn lemma_trace_concat<I2C, E: CmdExecutor<I2C, BUF_CAP>, const BUF_CAP: usize>(
    s1: Seq<E>,
    b1: Seq<I2C>,
    c1: Seq<ExecCall>,
    s2: Seq<E>,
    b2: Seq<I2C>,
    c2: Seq<ExecCall>,
)
    requires
        exec_trace::<I2C, E, BUF_CAP>(s1, b1, c1),
        exec_trace::<I2C, E, BUF_CAP>(s2, b2, c2),
        s1.last() == s2[0],
        b1.last() == b2[0],
    ensures
        exec_trace::<I2C, E, BUF_CAP>(s1 + s2.drop_first(), b1 + b2.drop_first(), c1 + c2),
        (s1 + s2.drop_first())[0] == s1[0],
        (b1 + b2.drop_first())[0] == b1[0],
        (s1 + s2.drop_first()).last() == s2.last(),
        (b1 + b2.drop_first()).last() == b2.last(),
{
    let s = s1 + s2.drop_first();
    let b = b1 + b2.drop_first();
    let c = c1 + c2;
    assert forall|i: int| 0 <= i < c.len() implies #[trigger] s[i + 1].executed(
        &s[i],
        &b[i],
        &b[i + 1],
        c[i].0,
        c[i].1,
        c[i].2,
    ) by {
        if i < c1.len() {
            assert(s[i] == s1[i]);
            assert(s[i + 1] == s1[i + 1]);
            assert(b[i] == b1[i]);
            assert(b[i + 1] == b1[i + 1]);
            assert(c[i] == c1[i]);
        } else {
            let j = i - c1.len();
            assert(s[i] == s2[j]);
            assert(s[i + 1] == s2[j + 1]);
            assert(b[i] == b2[j]);
            assert(b[i + 1] == b2[j + 1]);
            assert(c[i] == c2[j]);
        }
    }
    if s2.len() == 1 {
        assert(s.last() == s1.last());
        assert(b.last() == b1.last());
    }
}

/// An address is among those found between `3` and `end` exactly when it is
/// marked in both.
proof fn lemma_newly_found_contains(unsolved: Seq<bool>, accepted: Seq<bool>, end: int, a: int)
    requires
        3 <= a <= 0x77,
        end <= 0x78,
    ensures
        newly_found(unsolved, accepted, end).contains(a as u8) <==> (a < end && unsolved[a] && accepted[a]),
    decreases end,
{
    if end > 3 {
        lemma_newly_found_contains(unsolved, accepted, end - 1, a);
        let prev = newly_found(unsolved, accepted, end - 1);
        let tail = if unsolved[end - 1] && accepted[end - 1] {
            seq![(end - 1) as u8]
        } else {
            Seq::<u8>::empty()
        };
        assert(newly_found(unsolved, accepted, end) == prev + tail);
        if (prev + tail).contains(a as u8) {
            let k = choose|k: int| 0 <= k < (prev + tail).len() && (prev + tail)[k] == a as u8;
            if k < prev.len() {
                assert(prev[k] == a as u8);
            } else {
                assert(tail[k - prev.len()] == a as u8);
                assert(((end - 1) as u8) as int == end - 1);
                assert((a as u8) as int == a);
            }
        }
        if a < end && unsolved[a] && accepted[a] {
            if a < end - 1 {
                let k = choose|k: int| 0 <= k < prev.len() && prev[k] == a as u8;
                assert((prev + tail)[k] == a as u8);
            } else {
                assert((prev + tail)[prev.len() as int] == a as u8);
            }
        }
    }
}

impl<'a, const N: usize> Explorer<'a, N> {
    /// Starts an exploration: nothing found and no order tried yet, and the
    /// iterator over the orders of the commands; an empty sequence, one
    /// longer than `N`, or one the iterator refuses ends it at once.
    pub fn explore_begin(&'a self) -> (r: Result<(ExploreProgress, PermutationIter<'a, N>), ExplorerError>)
        ensures
            ({
                let nodes = self.sequence@;
                let failed = none_failed(N as nat);
                let len = nodes.len() as int;
                if len == 0 {
                    r is Err && r->Err_0 == ExplorerError::NoValidAddressesFound
                } else if len > N {
                    r is Err && r->Err_0 == ExplorerError::BufferOverflow
                } else {
                    match scan_error(dep_list(nodes, failed, len), len, N as int) {
                        Some(e) => r is Err && r->Err_0 == e,
                        None => if !orderable(nodes, failed) {
                            r is Err && r->Err_0 == ExplorerError::DependencyCycle
                        } else {
                            &&& r is Ok
                            &&& r->Ok_0.0.wf()
                            &&& r->Ok_0.0.found() == Seq::<u8>::empty()
                            &&& r->Ok_0.0.tested() == 0
                            &&& r->Ok_0.1.wf()
                            &&& r->Ok_0.1.nodes() == nodes
                            &&& r->Ok_0.1.path() == Seq::<int>::empty()
                            &&& r->Ok_0.1.resume() == 0
                            &&& !r->Ok_0.1.done()
                        },
                    }
                }
            }),
    {
        if self.sequence.len() == 0 {
            return Err(ExplorerError::NoValidAddressesFound);
        }
        if self.sequence.len() > N {
            return Err(ExplorerError::BufferOverflow);
        }
        let iter = match PermutationIter::new(self) {
            Ok(it) => it,
            Err(e) => {
                return Err(e);
            },
        };
        let progress = ExploreProgress {
            found_addrs: device_list_new(),
            solved_addrs: [false; 128],
            permutations_tested: 0,
        };
        proof {
            assert forall|a: int| 0 <= a < 128 implies (#[trigger] progress.solved_addrs@[a]
                <==> progress.found().contains(a as u8)) by {
                assert(!progress.solved_addrs@[a]);
            }
        }
        Ok((progress, iter))
    }

    /// Sends `order`, command by command through `executor`, to every address
    /// not yet found, from `0x03` to `0x77`; an address whose device accepts
    /// every command is found, and the first command an address refuses is
    /// reported to `logger` as an error. True once every address has been
    /// found.
    pub fn explore_order<I2C, E, L, const BUF_CAP: usize>(
        &self,
        progress: &mut ExploreProgress,
        i2c: &mut I2C,
        executor: &mut E,
        logger: &mut L,
        order: &[&[u8]],
    ) -> (r: Result<bool, ExplorerError>)
        where
            I2C: I2cCompat,
            E: CmdExecutor<I2C, BUF_CAP>,
            L: Logger<BUF_CAP>,
        requires
            old(progress).wf(),
            old(progress).tested() < usize::MAX,
        ensures
            final(progress).wf(),
            final(progress).tested() == old(progress).tested() + 1,
            exists|runs: Seq<Seq<ExecCall>>, states: Seq<E>, buses: Seq<I2C>, accepted: Seq<bool>|
                #![trigger exec_trace::<I2C, E, BUF_CAP>(states, buses, runs.flatten()), newly_found(old(progress).unsolved(), accepted, 0x78)]
                exec_trace::<I2C, E, BUF_CAP>(states, buses, runs.flatten()) && states[0]
                    == *old(executor) && states.last() == *final(executor) && buses[0] == *old(i2c)
                    && buses.last() == *final(i2c) && runs.len() == 117 && (forall|a: int|
                    3 <= a <= 0x77 ==> if old(progress).unsolved()[a] {
                        order_run(a as u8, order_bytes(order@), #[trigger] runs[a - 3])
                    } else {
                        runs[a - 3].len() == 0
                    }) && (forall|a: int|
                    3 <= a <= 0x77 ==> #[trigger] accepted[a] == (old(progress).unsolved()[a]
                        && run_accepted(order_bytes(order@), runs[a - 3]))) && final(progress).found()
                    == old(progress).found() + newly_found(old(progress).unsolved(), accepted, 0x78),
            r is Ok,
            r->Ok_0 == (final(progress).found().len() == 117),
    {
        progress.permutations_tested += 1;
        let ghost unsolved = old(progress).unsolved();
        let ghost found0 = old(progress).found();
        let ghost ord = order_bytes(order@);
        let ghost mut accepted: Seq<bool> = Seq::new(128, |a: int| false);
        let ghost mut runs: Seq<Seq<ExecCall>> = Seq::empty();
        let ghost mut states: Seq<E> = seq![*executor];
        let ghost mut buses: Seq<I2C> = seq![*i2c];
        proof {
            assert(runs.flatten() =~= Seq::<ExecCall>::empty());
        }
        let mut addr_val: u8 = I2C_SCAN_ADDR_START;
        while addr_val <= I2C_SCAN_ADDR_END
            invariant
                3 <= addr_val <= 0x78,
                progress.wf(),
                progress.tested() == old(progress).tested() + 1,
                progress.tested() >= 1,
                accepted.len() == 128,
                unsolved == old(progress).unsolved(),
                ord == order_bytes(order@),
                progress.found() == found0 + newly_found(unsolved, accepted, addr_val as int),
                forall|a: int| addr_val <= a < 128 ==> #[trigger] progress.solved_addrs@[a] == !unsolved[a],
                forall|a: int| addr_val <= a < 128 ==> !#[trigger] accepted[a],
                runs.len() == addr_val - 3,
                exec_trace::<I2C, E, BUF_CAP>(states, buses, runs.flatten()),
                states[0] == *old(executor),
                states.last() == *executor,
                buses[0] == *old(i2c),
                buses.last() == *i2c,
                forall|a: int|
                    3 <= a < addr_val ==> if unsolved[a] {
                        order_run(a as u8, ord, #[trigger] runs[a - 3])
                    } else {
                        runs[a - 3].len() == 0
                    },
                forall|a: int|
                    3 <= a < addr_val ==> #[trigger] accepted[a] == (unsolved[a] && run_accepted(
                        ord,
                        runs[a - 3],
                    )),
            decreases 0x78 - addr_val,
        {
            let addr_idx = addr_val as usize;
            if progress.solved_addrs[addr_idx] {
                proof {
                    assert(newly_found(unsolved, accepted, addr_val + 1) =~= newly_found(
                        unsolved,
                        accepted,
                        addr_val as int,
                    ));
                    let e: Seq<ExecCall> = Seq::empty();
                    let runs2 = runs.push(e);
                    runs.lemma_flatten_push(e);
                    assert(runs.flatten() + e =~= runs.flatten());
                    assert forall|a: int| 3 <= a < addr_val + 1 implies (if unsolved[a] {
                        order_run(a as u8, ord, #[trigger] runs2[a - 3])
                    } else {
                        runs2[a - 3].len() == 0
                    }) by {
                        if a < addr_val {
                            assert(runs2[a - 3] == runs[a - 3]);
                        }
                    }
                    assert forall|a: int| 3 <= a < addr_val + 1 implies #[trigger] accepted[a] == (unsolved[a]
                        && run_accepted(ord, runs2[a - 3])) by {
                        if a < addr_val {
                            assert(runs2[a - 3] == runs[a - 3]);
                        }
                    }
                    runs = runs2;
                }
                addr_val += 1;
                continue;
            }
            let ghost calls0 = runs.flatten();
            let ghost mut run: Seq<ExecCall> = Seq::empty();
            proof {
                assert(calls0 + run =~= calls0);
            }
            let mut all_ok = true;
            let mut c: usize = 0;
            while all_ok && c < order.len()
                invariant
                    c <= order@.len(),
                    ord == order_bytes(order@),
                    ord.len() == order@.len(),
                    run.len() == c,
                    forall|k: int| 0 <= k < run.len() ==> (#[trigger] run[k]).0 == addr_val && run[k].1 == ord[k],
                    all_ok ==> forall|k: int| 0 <= k < run.len() ==> (#[trigger] run[k]).2 is Ok,
                    !all_ok ==> c > 0 && run.last().2 is Err && forall|k: int|
                        0 <= k < run.len() - 1 ==> (#[trigger] run[k]).2 is Ok,
                    exec_trace::<I2C, E, BUF_CAP>(states, buses, calls0 + run),
                    states[0] == *old(executor),
                    states.last() == *executor,
                    buses[0] == *old(i2c),
                    buses.last() == *i2c,
                decreases order@.len() - c,
            {
                let ghost e0 = *executor;
                let ghost b0 = *i2c;
                let res = executor.exec(i2c, addr_val, order[c], logger);
                proof {
                    let call: ExecCall = (addr_val, order@[c as int]@, res);
                    assert(ord[c as int] == order@[c as int]@);
                    let calls = calls0 + run;
                    let s2 = states.push(*executor);
                    let b2 = buses.push(*i2c);
                    let c2 = calls.push(call);
                    assert(calls0 + run.push(call) =~= c2);
                    assert forall|i: int| 0 <= i < c2.len() implies #[trigger] s2[i + 1].executed(
                        &s2[i],
                        &b2[i],
                        &b2[i + 1],
                        c2[i].0,
                        c2[i].1,
                        c2[i].2,
                    ) by {
                        if i < calls.len() {
                            assert(s2[i + 1] == states[i + 1]);
                            assert(s2[i] == states[i]);
                            assert(b2[i + 1] == buses[i + 1]);
                            assert(b2[i] == buses[i]);
                            assert(c2[i] == calls[i]);
                        } else {
                            assert(s2[i] == e0);
                            assert(b2[i] == b0);
                        }
                    }
                    states = s2;
                    buses = b2;
                    run = run.push(call);
                }
                match res {
                    Ok(_) => {},
                    Err(e) => {
                        let mut line = String::from_str("[explorer] Execution failed for addr 0x");
                        push_byte_hex(&mut line, addr_val);
                        line.append(": ");
                        let d = e.to_debug_text();
                        line.append(d.as_str());
                        line.append("\n");
                        logger.log_error(line.as_str());
                        all_ok = false;
                    },
                }
                c += 1;
            }
            let ghost runs2 = runs.push(run);
            proof {
                runs.lemma_flatten_push(run);
                assert(order_run(addr_val, ord, run));
                assert(all_ok == run_accepted(ord, run));
            }
            if all_ok {
                let ghost f0 = progress.found();
                let ghost solved0 = progress.solved_addrs@;
                proof {
                    assert(!f0.contains(addr_val)) by {
                        assert(((addr_val as int) as u8) == addr_val);
                    }
                    let f = f0.push(addr_val);
                    assert forall|a: int, b: int| 0 <= a < b < f.len() implies f[a] != f[b] by {
                        if b == f0.len() {
                            assert(f0.contains(f[a]));
                        }
                    }
                    lemma_scan_addrs_bounded(f);
                }
                let pushed = device_list_push(&mut progress.found_addrs, addr_val);
                if pushed.is_err() {
                    return Err(ExplorerError::BufferOverflow);
                }
                progress.solved_addrs[addr_idx] = true;
                proof {
                    let acc1 = accepted.update(addr_val as int, true);
                    Self::lemma_newly_found_frame(unsolved, accepted, acc1, addr_val as int);
                    assert(unsolved[addr_val as int]);
                    assert(newly_found(unsolved, acc1, addr_val + 1) =~= newly_found(
                        unsolved,
                        accepted,
                        addr_val as int,
                    ).push(addr_val));
                    accepted = acc1;
                    let f1 = progress.found();
                    assert(f1 == f0.push(addr_val));
                    assert forall|a: int| 0 <= a < 128 implies (#[trigger] progress.solved_addrs@[a]
                        <==> progress.found().contains(a as u8)) by {
                        if a == addr_val as int {
                            assert(f1[f0.len() as int] == addr_val);
                        } else {
                            assert(progress.solved_addrs@[a] == solved0[a]);
                            assert((a as u8) != addr_val);
                            if f1.contains(a as u8) {
                                let k = choose|k: int| 0 <= k < f1.len() && f1[k] == a as u8;
                                assert(f0[k] == a as u8);
                            }
                            if f0.contains(a as u8) {
                                let k = choose|k: int| 0 <= k < f0.len() && f0[k] == a as u8;
                                assert(f1[k] == a as u8);
                            }
                        }
                    }
                    assert forall|k: int| 0 <= k < f1.len() implies 3 <= #[trigger] f1[k] <= 0x77 by {
                        if k < f0.len() {
                            assert(f1[k] == f0[k]);
                        }
                    }
                }
            } else {
                proof {
                    assert(newly_found(unsolved, accepted, addr_val + 1) =~= newly_found(
                        unsolved,
                        accepted,
                        addr_val as int,
                    ));
                }
            }
            proof {
                assert forall|a: int| 3 <= a < addr_val + 1 implies (if unsolved[a] {
                    order_run(a as u8, ord, #[trigger] runs2[a - 3])
                } else {
                    runs2[a - 3].len() == 0
                }) by {
                    if a < addr_val {
                        assert(runs2[a - 3] == runs[a - 3]);
                    }
                }
                assert forall|a: int| 3 <= a < addr_val + 1 implies #[trigger] accepted[a] == (unsolved[a]
                    && run_accepted(ord, runs2[a - 3])) by {
                    if a < addr_val {
                        assert(runs2[a - 3] == runs[a - 3]);
                    }
                }
                runs = runs2;
            }
            addr_val += 1;
        }
        Ok(device_list_as_slice(&progress.found_addrs).len() == 117)
    }

    proof fn lemma_newly_found_frame(unsolved: Seq<bool>, acc0: Seq<bool>, acc1: Seq<bool>, end: int)
        requires
            forall|x: int| 0 <= x < end ==> acc0[x] == acc1[x],
        ensures
            newly_found(unsolved, acc0, end) == newly_found(unsolved, acc1, end),
        decreases end,
    {
        if end > 3 {
            Self::lemma_newly_found_frame(unsolved, acc0, acc1, end - 1);
        }
    }

    /// The line that closes an exploration.
    pub open spec fn complete_text(found: nat, tested: nat) -> Seq<char> {
        "[explorer] Exploration complete. "@ + decimal_text(found) + " addresses found across "@
            + decimal_text(tested) + " permutations.\n"@
    }

    /// Tries the orders of the commands, one after the other, on every
    /// address not yet found, until the orders run out or every address has
    /// been found; logs the start and the end of the search.
    pub fn explore<I2C, E, L, const BUF_CAP: usize>(
        &'a self,
        i2c: &mut I2C,
        executor: &mut E,
        logger: &mut L,
    ) -> (r: Result<ExploreResult, ExplorerError>)
        where
            I2C: I2cCompat,
            E: CmdExecutor<I2C, BUF_CAP>,
            L: Logger<BUF_CAP>,
        ensures
            self.sequence@.len() == 0 ==> r == Err::<ExploreResult, ExplorerError>(
                ExplorerError::NoValidAddressesFound,
            ) && final(logger).info_logged(old(logger), "[explorer] No commands provided."@)
                && *final(executor) == *old(executor) && *final(i2c) == *old(i2c),
            r matches Ok(res) ==> {
                &&& device_list(res.found_addrs).len() > 0
                &&& device_list(res.found_addrs).no_duplicates()
                &&& forall|k: int|
                    0 <= k < device_list(res.found_addrs).len() ==> 3 <= #[trigger] device_list(
                        res.found_addrs,
                    )[k] <= 0x77
                &&& res.permutations_tested >= 1
            },
            self.sequence@.len() > 0 && (r is Ok || r == Err::<ExploreResult, ExplorerError>(
                ExplorerError::NoValidAddressesFound,
            )) ==> exists|first: L, last: L, found: nat, tested: nat|
                #![trigger first.info_logged(old(logger), "[explorer] Starting permutation exploration..."@), final(logger).info_logged(&last, Self::complete_text(found, tested))]
                first.info_logged(old(logger), "[explorer] Starting permutation exploration..."@)
                    && final(logger).info_logged(&last, Self::complete_text(found, tested)),
            ({
                let nodes = self.sequence@;
                let failed = none_failed(N as nat);
                let len = nodes.len() as int;
                let unchanged = *final(executor) == *old(executor) && *final(i2c) == *old(i2c)
                    && *final(logger) == *old(logger);
                len > 0 ==> if len > N {
                    r == Err::<ExploreResult, ExplorerError>(ExplorerError::BufferOverflow) && unchanged
                } else {
                    match scan_error(dep_list(nodes, failed, len), len, N as int) {
                        Some(e) => r == Err::<ExploreResult, ExplorerError>(e) && unchanged,
                        None => if !orderable(nodes, failed) {
                            r == Err::<ExploreResult, ExplorerError>(ExplorerError::DependencyCycle) && unchanged
                        } else {
                            &&& r is Ok || r == Err::<ExploreResult, ExplorerError>(ExplorerError::NoValidAddressesFound)
                            &&& exists|
                                tried: Seq<Seq<Seq<u8>>>,
                                runs: Seq<Seq<Seq<ExecCall>>>,
                                states: Seq<E>,
                                buses: Seq<I2C>,
                            |
                                #[trigger] explore_trace::<I2C, E, BUF_CAP>(
                                    nodes,
                                    N as nat,
                                    tried,
                                    runs,
                                    states,
                                    buses,
                                    explore_found(r),
                                ) && states[0] == *old(executor) && states.last() == *final(executor) && buses[0]
                                    == *old(i2c) && buses.last() == *final(i2c) && (r matches Ok(res)
                                    ==> res.permutations_tested == tried.len())
                        },
                    }
                }
            }),
    {
        if self.sequence.len() == 0 {
            logger.log_info("[explorer] No commands provided.");
            proof {
                reveal_strlit("[explorer] No commands provided.");
            }
            return Err(ExplorerError::NoValidAddressesFound);
        }
        let (mut progress, mut iter) = match self.explore_begin() {
            Ok(started) => started,
            Err(e) => {
                proof {
                    let nodes = self.sequence@;
                    let len = nodes.len() as int;
                    lemma_scan_error_kinds(dep_list(nodes, none_failed(N as nat), len), len, N as int);
                }
                return Err(e);
            },
        };
        let ghost start = *logger;
        logger.log_info("[explorer] Starting permutation exploration...");
        let ghost first = *logger;
        let ghost nodes = self.sequence@;
        let ghost mut tried: Seq<Seq<Seq<u8>>> = Seq::empty();
        let ghost mut runs: Seq<Seq<Seq<ExecCall>>> = Seq::empty();
        let ghost mut states: Seq<E> = seq![*executor];
        let ghost mut buses: Seq<I2C> = seq![*i2c];
        proof {
            assert(all_calls(runs) =~= Seq::<ExecCall>::empty());
            assert forall|a: int| 3 <= a <= 0x77 implies (progress.found().contains(a as u8)
                <==> #[trigger] accepted_by(tried, runs, a, 0)) by {}
        }
        loop
            invariant
                iter.wf(),
                progress.wf(),
                iter.nodes() == self.sequence@,
                nodes == self.sequence@,
                nodes.len() > 0,
                explore_trace::<I2C, E, BUF_CAP>(nodes, N as nat, tried, runs, states, buses, progress.found()),
                tried.len() == progress.tested(),
                states[0] == *old(executor),
                states.last() == *executor,
                buses[0] == *old(i2c),
                buses.last() == *i2c,
                first.info_logged(&start, "[explorer] Starting permutation exploration..."@),
                start == *old(logger),
            decreases iter.measure(),
        {
            if progress.tested_count() == usize::MAX {
                break;
            }
            proof {
                iter.lemma_wf_bounds();
            }
            let ghost m0 = iter.measure();
            let ghost done0 = iter.done();
            match iter.next_order() {
                None => {
                    break;
                },
                Some(order) => {
                    let ghost p0 = progress;
                    let ghost o = choose|o: Seq<int>|
                        #[trigger] full_order(nodes, none_failed(N as nat), o) && order@.len() == o.len()
                            && forall|k: int| 0 <= k < order@.len() ==> #[trigger] order@[k] == nodes[o[k]].bytes;
                    let all = match self.explore_order(&mut progress, i2c, executor, logger, order.as_slice()) {
                        Ok(b) => b,
                        Err(e) => {
                            return Err(e);
                        },
                    };
                    proof {
                        let ord = order_bytes(order@);
                        assert(ord =~= commands_bytes(nodes, o));
                        let (run_t, states_t, buses_t, accepted) = choose|
                            run_t: Seq<Seq<ExecCall>>,
                            states_t: Seq<E>,
                            buses_t: Seq<I2C>,
                            accepted: Seq<bool>,
                        |
                            #![trigger exec_trace::<I2C, E, BUF_CAP>(states_t, buses_t, run_t.flatten()), newly_found(p0.unsolved(), accepted, 0x78)]
                            exec_trace::<I2C, E, BUF_CAP>(states_t, buses_t, run_t.flatten()) && states_t[0]
                                == states.last() && states_t.last() == *executor && buses_t[0] == buses.last()
                                && buses_t.last() == *i2c && run_t.len() == 117 && (forall|a: int|
                                3 <= a <= 0x77 ==> if p0.unsolved()[a] {
                                    order_run(a as u8, ord, #[trigger] run_t[a - 3])
                                } else {
                                    run_t[a - 3].len() == 0
                                }) && (forall|a: int|
                                3 <= a <= 0x77 ==> #[trigger] accepted[a] == (p0.unsolved()[a] && run_accepted(
                                    ord,
                                    run_t[a - 3],
                                ))) && progress.found() == p0.found() + newly_found(p0.unsolved(), accepted, 0x78);
                        assert forall|a: int| 3 <= a <= 0x77 implies (#[trigger] p0.unsolved()[a]
                            <==> !p0.found().contains(a as u8)) by {}
                        lemma_explore_step::<I2C, E, BUF_CAP>(
                            nodes,
                            N as nat,
                            tried,
                            runs,
                            states,
                            buses,
                            p0.found(),
                            o,
                            run_t,
                            states_t,
                            buses_t,
                            p0.unsolved(),
                            accepted,
                            progress.found(),
                        );
                        tried = tried.push(commands_bytes(nodes, o));
                        runs = runs.push(run_t);
                        states = states + states_t.drop_first();
                        buses = buses + buses_t.drop_first();
                    }
                    if all {
                        break;
                    }
                    proof {
                        iter.lemma_wf_bounds();
                        assert(!done0);
                        assert(iter.measure() < m0);
                    }
                },
            }
        }
        let mut line = String::from_str("[explorer] Exploration complete. ");
        push_decimal(&mut line, device_list_as_slice(&progress.found_addrs).len());
        line.append(" addresses found across ");
        push_decimal(&mut line, progress.permutations_tested);
        line.append(" permutations.\n");
        let ghost last = *logger;
        logger.log_info(line.as_str());
        proof {
            assert(line@ == Self::complete_text(progress.found().len(), progress.tested()));
        }
        let ghost found = progress.found();
        let r = Self::explore_end(progress);
        proof {
            assert(explore_found(r) == found);
            assert(explore_trace::<I2C, E, BUF_CAP>(nodes, N as nat, tried, runs, states, buses, explore_found(r)));
        }
        r
    }

    /// Ends an exploration: what it found, or `NoValidAddressesFound` when
    /// no address was found.
    pub fn explore_end(progress: ExploreProgress) -> (r: Result<ExploreResult, ExplorerError>)
        ensures
            progress.found().len() == 0 ==> r is Err && r->Err_0 == ExplorerError::NoValidAddressesFound,
            progress.found().len() > 0 ==> r is Ok && device_list(r->Ok_0.found_addrs) == progress.found()
                && r->Ok_0.permutations_tested == progress.tested(),
            progress.wf() && r is Ok ==> r->Ok_0.permutations_tested >= 1,
    {
        if device_list_is_empty(&progress.found_addrs) {
            return Err(ExplorerError::NoValidAddressesFound);
        }
        Ok(ExploreResult {
            found_addrs: progress.found_addrs,
            permutations_tested: progress.permutations_tested,
        })
    }
}

proof fn lemma_none_failed_count(n: int, m: int)
    requires
        0 <= m <= n,
    ensures
        failed_count(none_failed(n as nat), m) == 0,
    decreases m,
{
    if m > 0 {
        lemma_none_failed_count(n, m - 1);
    }
}

/// With no command marked as failed, the sort reports a cycle exactly when
/// the permutation search does: exactly when the commands cannot all be put
/// in one order with dependencies first.
pub proof fn law_sort_cycle_iff_unorderable<const N: usize>(nodes: Seq<CmdNode>, order: Seq<int>)
    requires
        nodes.len() <= N,
        kahn_order(nodes, none_failed(N as nat), order),
    ensures
        (order.len() + failed_count(none_failed(N as nat), N as int) != nodes.len()) <==> !orderable(
            nodes,
            none_failed(N as nat),
        ),
{
    let failed = none_failed(N as nat);
    lemma_none_failed_count(N as int, N as int);
    lemma_kahn_order_orderable(nodes, failed, order);
    lemma_all_live_done(nodes, failed, order);
}

} // verus!
