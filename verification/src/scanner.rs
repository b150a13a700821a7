//! Scanner utilities for I2C bus device discovery and analysis.

use vstd::prelude::*;
use crate::compat::devices::{
    device_list, device_list_as_slice, device_list_is_empty, device_list_new, device_list_push,
};
use crate::compat::err_compat::HalErrorExt;
use crate::compat::i2c_compat::{I2cCompat, WriteEntry};
use crate::error::{ErrorKind, I2cError};
use crate::compat::text::{byte_hex_text, push_byte_hex};
use crate::compat::util::{garbled_lines, prevent_garbled};

verus! {

pub const I2C_SCAN_ADDR_START: u8 = 0x03;

pub const I2C_SCAN_ADDR_END: u8 = 0x77;

pub const I2C_MAX_DEVICES: usize = 128;

/// The number of addresses a scan probes, `0x03` through `0x77`.
pub open spec fn scan_span() -> nat {
    117
}

/// The answer of one write: `None` when the device acknowledged it, or the
/// unified kind of the error it failed with.
pub type WriteOutcome = Option<ErrorKind>;

/// The addresses that acknowledged, given the outcome of the write to each
/// address from `0x03` on, in increasing order.
pub open spec fn acked_addrs(outcomes: Seq<WriteOutcome>) -> Seq<u8>
    decreases outcomes.len(),
{
    if outcomes.len() == 0 {
        Seq::empty()
    } else {
        acked_addrs(outcomes.drop_last()) + (if outcomes.last() is None {
            seq![(3 + outcomes.len() - 1) as u8]
        } else {
            Seq::empty()
        })
    }
}

/// The last error among the outcomes that is not a NACK.
pub open spec fn last_hard_error(outcomes: Seq<WriteOutcome>) -> Option<ErrorKind>
    decreases outcomes.len(),
{
    if outcomes.len() == 0 {
        None
    } else {
        match outcomes.last() {
            Some(k) => if k != ErrorKind::I2c(I2cError::Nack) {
                Some(k)
            } else {
                last_hard_error(outcomes.drop_last())
            },
            None => last_hard_error(outcomes.drop_last()),
        }
    }
}

/// What a scan reports for the outcomes of its writes: the acknowledging
/// addresses, or, when none acknowledged, the last error that was not a NACK
/// (a NACK when there was none).
pub open spec fn scan_result(outcomes: Seq<WriteOutcome>) -> Result<Seq<u8>, ErrorKind> {
    if acked_addrs(outcomes).len() == 0 {
        Err(
            match last_hard_error(outcomes) {
                Some(k) => k,
                None => ErrorKind::I2c(I2cError::Nack),
            },
        )
    } else {
        Ok(acked_addrs(outcomes))
    }
}

/// The outcome of a write to `addr` with the answer `r`: `None` when it was
/// acknowledged, else the unified kind of its error, reported for `addr`.
pub open spec fn outcome_of<E: HalErrorExt>(addr: u8, r: Result<(), E>) -> WriteOutcome {
    match r {
        Ok(_) => None,
        Err(e) => Some(e.compat(Some(addr))),
    }
}

/// The outcomes of logged writes, in order.
pub open spec fn outcomes_of<E: HalErrorExt>(entries: Seq<WriteEntry<E>>) -> Seq<WriteOutcome> {
    entries.map_values(|e: WriteEntry<E>| outcome_of(e.0, e.2))
}

/// The logged writes `entries` went, in order, to the addresses and with the
/// bytes of `targets`.
pub open spec fn writes_match<E>(entries: Seq<WriteEntry<E>>, targets: Seq<(u8, Seq<u8>)>) -> bool {
    &&& entries.len() == targets.len()
    &&& forall|k: int|
        0 <= k < entries.len() ==> (#[trigger] entries[k]).0 == targets[k].0 && entries[k].1
            == targets[k].1
}

/// The writes of a scan: `data` to every address from `0x03` to `0x77`, in
/// increasing order.
pub open spec fn scan_targets(data: Seq<u8>) -> Seq<(u8, Seq<u8>)> {
    Seq::new(scan_span(), |k: int| ((3 + k) as u8, data))
}

/// A scan result as a value of the model: the addresses of an `Ok` by the
/// contents of the list.
pub open spec fn list_result(r: Result<heapless::Vec<u8, 128>, ErrorKind>) -> Result<
    Seq<u8>,
    ErrorKind,
> {
    match r {
        Ok(list) => Ok(device_list(list)),
        Err(k) => Err(k),
    }
}

/// `entries`, appended to the bus log by a scan with `data`, are its writes,
/// and `r` is what the scan reports for their answers.
pub open spec fn scan_log<E: HalErrorExt>(
    data: Seq<u8>,
    entries: Seq<WriteEntry<E>>,
    r: Result<Seq<u8>, ErrorKind>,
) -> bool {
    &&& writes_match(entries, scan_targets(data))
    &&& r == scan_result(outcomes_of(entries))
}

proof fn lemma_outcomes_push<E: HalErrorExt>(entries: Seq<WriteEntry<E>>, x: WriteEntry<E>)
    ensures
        outcomes_of(entries.push(x)) == outcomes_of(entries).push(outcome_of(x.0, x.2)),
{
    assert(outcomes_of(entries.push(x)) =~= outcomes_of(entries).push(outcome_of(x.0, x.2)));
}

proof fn lemma_acked_addrs_len(outcomes: Seq<WriteOutcome>)
    ensures
        acked_addrs(outcomes).len() <= outcomes.len(),
    decreases outcomes.len(),
{
    if outcomes.len() > 0 {
        lemma_acked_addrs_len(outcomes.drop_last());
    }
}

/// Writes `data` to every address from `0x03` to `0x77` and collects the
/// addresses that acknowledge it.
fn internal_scan<I2C>(i2c: &mut I2C, data: &[u8]) -> (r: Result<heapless::Vec<u8, 128>, ErrorKind>)
    where
        I2C: I2cCompat,
        I2C::Error: HalErrorExt,
    ensures
        exists|entries: Seq<WriteEntry<I2C::Error>>|
            #[trigger] scan_log(data@, entries, list_result(r)) && final(i2c).write_log() == old(
                i2c,
            ).write_log() + entries,
{
    let mut found_addrs = device_list_new();
    let mut last_error: Option<ErrorKind> = None;
    let ghost log0 = i2c.write_log();
    let ghost targets = scan_targets(data@);
    let ghost mut entries: Seq<WriteEntry<I2C::Error>> = Seq::empty();
    let mut addr: u8 = I2C_SCAN_ADDR_START;
    while addr <= I2C_SCAN_ADDR_END
        invariant
            3 <= addr <= 0x78,
            targets == scan_targets(data@),
            entries.len() == addr - 3,
            writes_match(entries, targets.take(addr - 3)),
            i2c.write_log() == log0 + entries,
            device_list(found_addrs) == acked_addrs(outcomes_of(entries)),
            last_error == last_hard_error(outcomes_of(entries)),
        decreases 0x78 - addr,
    {
        let ghost outcomes = outcomes_of(entries);
        proof {
            lemma_acked_addrs_len(outcomes);
        }
        let res = i2c.write(addr, data);
        let ghost e2 = entries.push((addr, data@, res));
        proof {
            lemma_outcomes_push(entries, (addr, data@, res));
            assert(outcomes_of(e2).drop_last() =~= outcomes);
            assert(i2c.write_log() == log0 + e2);
            assert forall|k: int| 0 <= k < e2.len() implies (#[trigger] e2[k]).0 == targets.take(addr - 2)[k].0
                && e2[k].1 == targets.take(addr - 2)[k].1 by {
                if k < entries.len() {
                    assert(e2[k] == entries[k]);
                    assert(targets.take(addr - 3)[k] == targets.take(addr - 2)[k]);
                }
            }
        }
        match res {
            Ok(_) => {
                let pushed = device_list_push(&mut found_addrs, addr);
                if pushed.is_err() {
                    assert(false);
                    return Err(ErrorKind::Buffer(crate::error::BufferError::Overflow));
                }
            },
            Err(e) => {
                let error_kind = e.to_compat(Some(addr));
                if error_kind != ErrorKind::I2c(I2cError::Nack) {
                    last_error = Some(error_kind);
                }
            },
        }
        proof {
            entries = e2;
        }
        addr += 1;
    }
    proof {
        assert(targets.take(117) =~= targets);
    }
    let r = if device_list_is_empty(&found_addrs) {
        Err(
            match last_error {
                Some(k) => k,
                None => ErrorKind::I2c(I2cError::Nack),
            },
        )
    } else {
        Ok(found_addrs)
    };
    assert(scan_log(data@, entries, list_result(r)));
    r
}

/// The addresses a successful scan reports are distinct, increasing and inside
/// `0x03..=0x77`, and there is at least one.
pub open spec fn well_formed_scan(list: Seq<u8>) -> bool {
    &&& list.len() > 0
    &&& forall|k: int| 0 <= k < list.len() ==> 0x03 <= #[trigger] list[k] <= 0x77
    &&& forall|i: int, j: int| 0 <= i < j < list.len() ==> list[i] < list[j]
}

proof fn lemma_acked_addrs_shape(outcomes: Seq<WriteOutcome>)
    requires
        outcomes.len() <= scan_span(),
    ensures
        forall|k: int|
            0 <= k < acked_addrs(outcomes).len() ==> 0x03 <= #[trigger] acked_addrs(outcomes)[k] < 3
                + outcomes.len(),
        forall|i: int, j: int|
            0 <= i < j < acked_addrs(outcomes).len() ==> acked_addrs(outcomes)[i] < acked_addrs(
                outcomes,
            )[j],
    decreases outcomes.len(),
{
    if outcomes.len() > 0 {
        let prev = outcomes.drop_last();
        lemma_acked_addrs_shape(prev);
        let n = outcomes.len();
        if outcomes.last() is None {
            let a = (3 + n - 1) as u8;
            assert(a as int == 3 + n - 1);
            assert(acked_addrs(outcomes) == acked_addrs(prev).push(a));
        } else {
            assert(acked_addrs(outcomes) =~= acked_addrs(prev));
        }
    }
}

/// A successful scan reports a non-empty, strictly increasing list of
/// addresses inside the scanned range.
pub proof fn law_scan_result_shape(outcomes: Seq<WriteOutcome>)
    requires
        outcomes.len() == scan_span(),
    ensures
        scan_result(outcomes) matches Ok(list) ==> well_formed_scan(list),
{
    lemma_acked_addrs_shape(outcomes);
}

/// Scans the I2C bus for devices by attempting to write a single control byte to each address.
///
/// # Parameters
///
/// - `i2c`: The I2C bus instance.
/// - `ctrl_byte`: The control byte.
pub fn scan_i2c<I2C>(i2c: &mut I2C, writer: &mut String, ctrl_byte: u8) -> (r: Result<
    heapless::Vec<u8, 128>,
    ErrorKind,
>)
    where
        I2C: I2cCompat,
        I2C::Error: HalErrorExt,
    ensures
        exists|entries: Seq<WriteEntry<I2C::Error>>|
            #[trigger] scan_log(seq![ctrl_byte], entries, list_result(r)) && final(i2c).write_log()
                == old(i2c).write_log() + entries && final(writer)@ == old(writer)@ + scan_text(
                ctrl_byte,
                entries,
            ),
        r matches Ok(list) ==> well_formed_scan(device_list(list)),
{
    let mut t = String::from_str("Scanning I2C bus with a ");
    push_byte_hex(&mut t, ctrl_byte);
    t.append(" ...");
    write_line(writer, t);
    let ghost out1 = writer@;
    let data: [u8; 1] = [ctrl_byte];
    let r = internal_scan(i2c, &data);
    let ghost entries = choose|entries: Seq<WriteEntry<I2C::Error>>|
        #[trigger] scan_log(data@, entries, list_result(r)) && i2c.write_log() == old(i2c).write_log()
            + entries;
    proof {
        assert(data@ =~= seq![ctrl_byte]);
        law_scan_result_shape(outcomes_of(entries));
    }
    match &r {
        Ok(list) => {
            let addrs = device_list_as_slice(list);
            let mut t = String::from_str("Found device @ ");
            push_byte_hex(&mut t, addrs[0]);
            write_line(writer, t);
        },
        Err(_) => {
            assert(writer@ =~= out1 + Seq::<char>::empty());
        },
    }
    proof {
        assert(scan_log(seq![ctrl_byte], entries, list_result(r)));
    }
    r
}

/// What `scan_i2c` writes, given its control byte and its logged writes:
/// the start of the scan, then the first device found, if any.
pub open spec fn scan_text<E: HalErrorExt>(ctrl: u8, scan: Seq<WriteEntry<E>>) -> Seq<char> {
    line("Scanning I2C bus with a "@ + byte_hex_text(ctrl) + " ..."@) + match scan_result(
        outcomes_of(scan),
    ) {
        Err(_) => Seq::<char>::empty(),
        Ok(found) => line("Found device @ "@ + byte_hex_text(found[0])),
    }
}

/// `s` written `n` times over, one copy after the other.
pub open spec fn repeat_seq(s: Seq<u8>, n: nat) -> Seq<u8>
    decreases n,
{
    if n == 0 {
        Seq::empty()
    } else {
        repeat_seq(s, (n - 1) as nat) + s
    }
}

/// The commands that were acknowledged, given the command of each write and
/// its outcome: each command once, in the order of its first acknowledgement.
pub open spec fn acked_cmds(cmds: Seq<u8>, outcomes: Seq<WriteOutcome>) -> Seq<u8>
    decreases outcomes.len(),
{
    if outcomes.len() == 0 || cmds.len() != outcomes.len() {
        Seq::empty()
    } else {
        let prev = acked_cmds(cmds.drop_last(), outcomes.drop_last());
        if outcomes.last() is None && !prev.contains(cmds.last()) {
            prev.push(cmds.last())
        } else {
            prev
        }
    }
}

/// A command is among the acknowledged ones exactly when one of its writes
/// was acknowledged.
proof fn lemma_acked_contains(cmds: Seq<u8>, outcomes: Seq<WriteOutcome>, c: u8)
    requires
        cmds.len() == outcomes.len(),
    ensures
        acked_cmds(cmds, outcomes).contains(c) <==> exists|k: int|
            0 <= k < cmds.len() && cmds[k] == c && #[trigger] outcomes[k] is None,
        acked_cmds(cmds, outcomes).no_duplicates(),
    decreases outcomes.len(),
{
    if outcomes.len() > 0 {
        let c0 = cmds.drop_last();
        let o0 = outcomes.drop_last();
        lemma_acked_contains(c0, o0, c);
        let prev = acked_cmds(c0, o0);
        let cur = acked_cmds(cmds, outcomes);
        let last = (outcomes.len() - 1) as int;
        if exists|k: int| 0 <= k < c0.len() && c0[k] == c && #[trigger] o0[k] is None {
            let k = choose|k: int| 0 <= k < c0.len() && c0[k] == c && #[trigger] o0[k] is None;
            assert(cmds[k] == c && outcomes[k] is None);
        }
        if exists|k: int| 0 <= k < cmds.len() && cmds[k] == c && #[trigger] outcomes[k] is None {
            let k = choose|k: int| 0 <= k < cmds.len() && cmds[k] == c && #[trigger] outcomes[k] is None;
            if k < last {
                assert(c0[k] == c && o0[k] is None);
            }
        }
        if outcomes.last() is None && !prev.contains(cmds.last()) {
            assert(cur == prev.push(cmds.last()));
            if cur.contains(c) {
                let i = choose|i: int| 0 <= i < cur.len() && cur[i] == c;
                if i < prev.len() {
                    assert(prev[i] == c);
                } else {
                    assert(cmds[last] == c && outcomes[last] is None);
                }
            }
            if prev.contains(c) {
                let i = choose|i: int| 0 <= i < prev.len() && prev[i] == c;
                assert(cur[i] == c);
            }
            if cmds.last() == c {
                assert(cur[prev.len() as int] == c);
            }
            assert forall|i: int, j: int| 0 <= i < j < cur.len() implies cur[i] != cur[j] by {
                if j == prev.len() {
                    assert(prev.contains(prev[i]));
                }
            }
        } else {
            assert(cur == prev);
            if cmds.last() == c && outcomes.last() is None {
                assert(prev.contains(c));
            }
        }
    }
}

/// The command probe reports, when it succeeds, exactly the commands that
/// at least one device acknowledged, each once; it succeeds whenever some
/// write was acknowledged, and a write that failed (with a NACK or any other
/// error) never makes its command count as acknowledged.
pub proof fn law_probe_reports_acknowledged(cmds: Seq<u8>, outcomes: Seq<WriteOutcome>)
    requires
        cmds.len() == outcomes.len(),
    ensures
        init_scan_result(cmds, outcomes) matches Ok(v) ==> v.no_duplicates() && forall|c: u8|
            #[trigger] v.contains(c) <==> exists|k: int|
                0 <= k < cmds.len() && cmds[k] == c && #[trigger] outcomes[k] is None,
        (exists|k: int| 0 <= k < cmds.len() && #[trigger] outcomes[k] is None) ==> init_scan_result(
            cmds,
            outcomes,
        ) is Ok,
{
    let v = acked_cmds(cmds, outcomes);
    assert forall|c: u8| #[trigger] v.contains(c) <==> exists|k: int|
        0 <= k < cmds.len() && cmds[k] == c && #[trigger] outcomes[k] is None by {
        lemma_acked_contains(cmds, outcomes, c);
    }
    lemma_acked_contains(cmds, outcomes, 0);
    if exists|k: int| 0 <= k < cmds.len() && #[trigger] outcomes[k] is None {
        let k = choose|k: int| 0 <= k < cmds.len() && #[trigger] outcomes[k] is None;
        lemma_acked_contains(cmds, outcomes, cmds[k]);
        assert(v.contains(cmds[k]));
    }
}

/// What the command probe reports: the acknowledged commands, or, when none
/// was acknowledged, the last error that was not a NACK (a NACK when there
/// was none).
pub open spec fn init_scan_result(cmds: Seq<u8>, outcomes: Seq<WriteOutcome>) -> Result<
    Seq<u8>,
    ErrorKind,
> {
    if acked_cmds(cmds, outcomes).len() == 0 {
        Err(
            match last_hard_error(outcomes) {
                Some(k) => k,
                None => ErrorKind::I2c(I2cError::Nack),
            },
        )
    } else {
        Ok(acked_cmds(cmds, outcomes))
    }
}

/// A result as a value of the model: the bytes of an `Ok` by their view.
pub open spec fn bytes_result(r: Result<Vec<u8>, ErrorKind>) -> Result<Seq<u8>, ErrorKind> {
    match r {
        Ok(v) => Ok(v@),
        Err(k) => Err(k),
    }
}

/// The writes of the command probe: for each address of `found` in turn,
/// `ctrl` followed by each command of `init`, in order.
pub open spec fn probe_targets(found: Seq<u8>, ctrl: u8, init: Seq<u8>) -> Seq<(u8, Seq<u8>)>
    decreases found.len(),
{
    if found.len() == 0 {
        Seq::empty()
    } else {
        probe_targets(found.drop_last(), ctrl, init) + init.map_values(
            |c: u8| (found.last(), seq![ctrl, c]),
        )
    }
}

/// `scan` and `probe`, appended in turn to the bus log by
/// `scan_init_sequence`, are its writes, and `r` is what it returns for
/// their answers: the scan's error when the scan failed (and then no probe
/// write), else the probe result for the writes of every command of `init`
/// to every address found, address by address.
pub open spec fn init_scan_log<E: HalErrorExt>(
    ctrl: u8,
    init: Seq<u8>,
    scan: Seq<WriteEntry<E>>,
    probe: Seq<WriteEntry<E>>,
    r: Result<Seq<u8>, ErrorKind>,
) -> bool {
    &&& writes_match(scan, scan_targets(seq![ctrl]))
    &&& match scan_result(outcomes_of(scan)) {
        Err(e) => r == Err::<Seq<u8>, ErrorKind>(e) && probe.len() == 0,
        Ok(found) => {
            &&& writes_match(probe, probe_targets(found, ctrl, init))
            &&& r == init_scan_result(repeat_seq(init, found.len()), outcomes_of(probe))
        },
    }
}

proof fn lemma_writes_match_push<E>(
    entries: Seq<WriteEntry<E>>,
    targets: Seq<(u8, Seq<u8>)>,
    x: WriteEntry<E>,
)
    requires
        writes_match(entries, targets),
    ensures
        writes_match(entries.push(x), targets.push((x.0, x.1))),
{
    let e2 = entries.push(x);
    let t2 = targets.push((x.0, x.1));
    assert forall|k: int| 0 <= k < e2.len() implies (#[trigger] e2[k]).0 == t2[k].0 && e2[k].1 == t2[k].1 by {
        if k < entries.len() {
            assert(e2[k] == entries[k]);
            assert(t2[k] == targets[k]);
        }
    }
}

/// A message as `prevent_garbled` writes it.
pub open spec fn line(t: Seq<char>) -> Seq<char> {
    garbled_lines(t, 0)
}

/// The lines the probe writes for command `c` sent to `addr` with the
/// logged write `w`: the command it sends, then whether it drew a response,
/// no response (a NACK), or another error.
pub open spec fn cmd_text<E: HalErrorExt>(addr: u8, c: u8, w: WriteEntry<E>) -> Seq<char> {
    line("  Sending command "@ + byte_hex_text(c) + " to "@ + byte_hex_text(addr) + "..."@) + match outcome_of(
        addr,
        w.2,
    ) {
        None => line("  Command "@ + byte_hex_text(c) + " responded."@),
        Some(k) => if k == ErrorKind::I2c(I2cError::Nack) {
            line("  Command "@ + byte_hex_text(c) + " no response (NACK)."@)
        } else {
            line(
                "  Write failed for "@ + byte_hex_text(c) + " at "@ + byte_hex_text(addr) + ": "@
                    + k.debug_text(),
            )
        },
    }
}

/// The lines the probe writes for the address `addr`, whose logged writes
/// are `ws`, one per command of `init` from the first on.
pub open spec fn addr_text<E: HalErrorExt>(addr: u8, init: Seq<u8>, ws: Seq<WriteEntry<E>>) -> Seq<char>
    decreases ws.len(),
{
    if ws.len() == 0 {
        line("Testing init SEQ on "@ + byte_hex_text(addr) + "..."@)
    } else {
        addr_text(addr, init, ws.drop_last()) + cmd_text(addr, init[ws.len() - 1], ws.last())
    }
}

/// The lines the probe writes for the addresses of `found`, whose logged
/// writes are grouped by address in `groups`.
pub open spec fn groups_text<E: HalErrorExt>(
    found: Seq<u8>,
    init: Seq<u8>,
    groups: Seq<Seq<WriteEntry<E>>>,
) -> Seq<char>
    decreases groups.len(),
{
    if groups.len() == 0 {
        Seq::empty()
    } else {
        groups_text(found, init, groups.drop_last()) + addr_text(
            found[groups.len() - 1],
            init,
            groups.last(),
        )
    }
}

/// A line for each byte: a space, then the byte in hexadecimal.
pub open spec fn byte_lines(bytes: Seq<u8>) -> Seq<char>
    decreases bytes.len(),
{
    if bytes.len() == 0 {
        Seq::empty()
    } else {
        byte_lines(bytes.drop_last()) + " "@ + byte_hex_text(bytes.last()) + "\n"@
    }
}

/// The summary that closes a probe of the command sequence `init` in which
/// the commands `detected` drew a response: the sequence, the first 64 of
/// the commands that drew a response, and those that drew none.
pub open spec fn summary_text(init: Seq<u8>, detected: Seq<u8>) -> Seq<char> {
    let shown = if detected.len() <= 64 {
        detected
    } else {
        detected.take(64)
    };
    "Expected sequence:\n"@ + byte_lines(init) + "\n"@ + "Commands with response:\n"@ + byte_lines(shown) + "\n"@
        + "Commands with no response:\n"@ + byte_lines(missing_cmds(init, detected)) + "\n"@
}

/// Writes a line for each of the first `count` bytes of `bytes`.
fn write_byte_lines(writer: &mut String, bytes: &[u8], count: usize)
    requires
        count <= bytes@.len(),
    ensures
        final(writer)@ == old(writer)@ + byte_lines(bytes@.take(count as int)),
{
    let ghost start = writer@;
    let mut i: usize = 0;
    while i < count
        invariant
            i <= count <= bytes@.len(),
            writer@ == start + byte_lines(bytes@.take(i as int)),
        decreases count - i,
    {
        writer.append(" ");
        push_byte_hex(writer, bytes[i]);
        writer.append("\n");
        proof {
            assert(bytes@.take(i + 1).drop_last() =~= bytes@.take(i as int));
            assert(writer@ =~= start + byte_lines(bytes@.take(i + 1)));
        }
        i += 1;
    }
}

/// Writes the summary of a probe of `init` in which the commands `detected`
/// drew a response.
fn write_summary(writer: &mut String, init: &[u8], detected: &[u8])
    ensures
        final(writer)@ == old(writer)@ + summary_text(init@, detected@),
{
    let ghost start = writer@;
    let missing = missing_commands(init, detected);
    writer.append("Expected sequence:\n");
    write_byte_lines(writer, init, init.len());
    writer.append("\n");
    writer.append("Commands with response:\n");
    let shown: usize = if detected.len() <= 64 {
        detected.len()
    } else {
        64
    };
    write_byte_lines(writer, detected, shown);
    writer.append("\n");
    writer.append("Commands with no response:\n");
    write_byte_lines(writer, missing.as_slice(), missing.len());
    writer.append("\n");
    proof {
        let det = detected@;
        assert(init@.take(init@.len() as int) =~= init@);
        assert(missing@.take(missing@.len() as int) =~= missing@);
        if det.len() <= 64 {
            assert(det.take(det.len() as int) =~= det);
        }
        assert(writer@ =~= start + summary_text(init@, det));
    }
}

/// What `scan_init_sequence` writes, given its control byte, its command
/// sequence, its logged scan writes and its probe writes grouped by address:
/// the start of the scan, its result, and the lines of the probe.
pub open spec fn init_scan_text<E: HalErrorExt>(
    ctrl: u8,
    init: Seq<u8>,
    scan: Seq<WriteEntry<E>>,
    groups: Seq<Seq<WriteEntry<E>>>,
) -> Seq<char> {
    let head = line("Start I2C scan with INIT_SEQ..."@) + line(
        "Initializing scan with ctrl byte "@ + byte_hex_text(ctrl),
    ) + scan_text(ctrl, scan);
    head + match scan_result(outcomes_of(scan)) {
        Err(e) => line("Failed to scan I2C: "@ + e.debug_text()),
        Ok(found) => groups_text(found, init, groups) + summary_text(
            init,
            acked_cmds(repeat_seq(init, found.len()), outcomes_of(groups.flatten())),
        ),
    }
}

/// Writes `text` through `prevent_garbled`.
fn write_line(writer: &mut String, text: String)
    ensures
        final(writer)@ == old(writer)@ + line(text@),
{
    prevent_garbled(writer, text.as_str());
}

proof fn lemma_repeat_members(s: Seq<u8>, n: nat)
    ensures
        forall|k: int| 0 <= k < repeat_seq(s, n).len() ==> s.contains(#[trigger] repeat_seq(s, n)[k]),
    decreases n,
{
    if n > 0 {
        let prev = repeat_seq(s, (n - 1) as nat);
        lemma_repeat_members(s, (n - 1) as nat);
        assert forall|k: int| 0 <= k < repeat_seq(s, n).len() implies s.contains(
            #[trigger] repeat_seq(s, n)[k],
        ) by {
            if k < prev.len() {
                assert(repeat_seq(s, n)[k] == prev[k]);
            } else {
                assert(repeat_seq(s, n)[k] == s[k - prev.len()]);
            }
        }
    }
}

proof fn lemma_acked_cmds_shape(cmds: Seq<u8>, outcomes: Seq<WriteOutcome>)
    ensures
        acked_cmds(cmds, outcomes).no_duplicates(),
        forall|k: int|
            0 <= k < acked_cmds(cmds, outcomes).len() ==> cmds.contains(
                #[trigger] acked_cmds(cmds, outcomes)[k],
            ),
    decreases outcomes.len(),
{
    if outcomes.len() > 0 && cmds.len() == outcomes.len() {
        let prev = acked_cmds(cmds.drop_last(), outcomes.drop_last());
        lemma_acked_cmds_shape(cmds.drop_last(), outcomes.drop_last());
        let cur = acked_cmds(cmds, outcomes);
        assert forall|k: int| 0 <= k < cur.len() implies cmds.contains(#[trigger] cur[k]) by {
            if k < prev.len() {
                assert(cur[k] == prev[k]);
                let j = choose|j: int| 0 <= j < cmds.drop_last().len() && cmds.drop_last()[j] == prev[k];
                assert(cmds[j] == prev[k]);
            } else {
                assert(cur[k] == cmds[cmds.len() - 1]);
            }
        }
        if outcomes.last() is None && !prev.contains(cmds.last()) {
            assert forall|i: int, j: int| 0 <= i < j < cur.len() implies cur[i] != cur[j] by {
                if j == prev.len() {
                    assert(cur[j] == cmds.last());
                    assert(cur[i] == prev[i]);
                }
            }
        }
    }
}

/// A successful command probe reports distinct commands, each taken from the
/// probed sequence, and at least one.
pub proof fn law_init_scan_shape(init: Seq<u8>, n: nat, outcomes: Seq<WriteOutcome>)
    requires
        outcomes.len() == repeat_seq(init, n).len(),
    ensures
        init_scan_result(repeat_seq(init, n), outcomes) matches Ok(cmds) ==> {
            &&& cmds.len() > 0
            &&& cmds.no_duplicates()
            &&& forall|k: int| 0 <= k < cmds.len() ==> init.contains(#[trigger] cmds[k])
        },
{
    let all = repeat_seq(init, n);
    lemma_acked_cmds_shape(all, outcomes);
    lemma_repeat_members(init, n);
    let acked = acked_cmds(all, outcomes);
    assert forall|k: int| 0 <= k < acked.len() implies init.contains(#[trigger] acked[k]) by {
        assert(all.contains(acked[k]));
        let j = choose|j: int| 0 <= j < all.len() && all[j] == acked[k];
        assert(init.contains(all[j]));
    }
}

/// Whether `x` occurs in `v`.
fn contains_byte(v: &Vec<u8>, x: u8) -> (r: bool)
    ensures
        r == v@.contains(x),
{
    let mut i: usize = 0;
    while i < v.len()
        invariant
            i <= v@.len(),
            forall|k: int| 0 <= k < i ==> v@[k] != x,
        decreases v@.len() - i,
    {
        if v[i] == x {
            return true;
        }
        i += 1;
    }
    false
}

/// Scans the I2C bus for devices that respond to a given initialization sequence.
///
/// This function first performs an initial scan to find all responding devices,
/// then iterates through the `init_sequence` to find which commands elicit a response
/// from those found devices.
///
/// # Parameters
///
/// - `i2c`: The I2C bus instance.
/// - `ctrl_byte`: The control byte to be sent before each command in the sequence.
/// - `init_sequence`: The sequence of bytes to test.
///
/// # Returns
///
/// The bytes from `init_sequence` that elicited a response, each once, in the
/// order of their first response.
pub fn scan_init_sequence<I2C, const INIT_SEQUENCE_LEN: usize>(
    i2c: &mut I2C,
    writer: &mut String,
    ctrl_byte: u8,
    init_sequence: &[u8; INIT_SEQUENCE_LEN],
) -> (r: Result<Vec<u8>, ErrorKind>)
    where
        I2C: I2cCompat,
        I2C::Error: HalErrorExt,
    ensures
        exists|scan: Seq<WriteEntry<I2C::Error>>, groups: Seq<Seq<WriteEntry<I2C::Error>>>|
            #[trigger] init_scan_log(ctrl_byte, init_sequence@, scan, groups.flatten(), bytes_result(r))
                && final(i2c).write_log() == old(i2c).write_log() + scan + groups.flatten()
                && final(writer)@ == old(writer)@ + init_scan_text(ctrl_byte, init_sequence@, scan, groups),
        r matches Ok(v) ==> {
            &&& v@.len() > 0
            &&& v@.no_duplicates()
            &&& forall|k: int| 0 <= k < v@.len() ==> init_sequence@.contains(#[trigger] v@[k])
        },
{
    let ghost log0 = i2c.write_log();
    let ghost out0 = writer@;
    let ghost none: Seq<Seq<WriteEntry<I2C::Error>>> = Seq::empty();
    proof {
        assert(none.flatten() =~= Seq::<WriteEntry<I2C::Error>>::empty());
    }
    write_line(writer, String::from_str("Start I2C scan with INIT_SEQ..."));
    let mut t = String::from_str("Initializing scan with ctrl byte ");
    push_byte_hex(&mut t, ctrl_byte);
    write_line(writer, t);
    let ghost out1 = writer@;
    let scanned = scan_i2c(i2c, writer, ctrl_byte);
    let ghost scan = choose|entries: Seq<WriteEntry<I2C::Error>>|
        #[trigger] scan_log(seq![ctrl_byte], entries, list_result(scanned)) && i2c.write_log() == log0
            + entries && writer@ == out1 + scan_text(ctrl_byte, entries);
    let found_addrs = match scanned {
        Ok(addrs) => addrs,
        Err(e) => {
            let mut t = String::from_str("Failed to scan I2C: ");
            let d = e.to_debug_text();
            t.append(d.as_str());
            write_line(writer, t);
            proof {
                assert(i2c.write_log() == log0 + scan + none.flatten());
                assert(init_scan_log(ctrl_byte, init_sequence@, scan, none.flatten(), Err(e)));
                assert(writer@ =~= out0 + init_scan_text(ctrl_byte, init_sequence@, scan, none));
            }
            return Err(e);
        },
    };
    let ghost log1 = i2c.write_log();
    if device_list_is_empty(&found_addrs) {
        assert(false);
        return Err(ErrorKind::I2c(I2cError::Nack));
    }
    let addrs = device_list_as_slice(&found_addrs);
    let ghost out2 = writer@;
    let ghost init = init_sequence@;
    let ghost found = addrs@;
    let mut detected_cmds: Vec<u8> = Vec::new();
    let mut last_error: Option<ErrorKind> = None;
    let ghost mut cmds: Seq<u8> = Seq::empty();
    let ghost mut probe: Seq<WriteEntry<I2C::Error>> = Seq::empty();
    let ghost mut groups: Seq<Seq<WriteEntry<I2C::Error>>> = Seq::empty();
    let mut a: usize = 0;
    while a < addrs.len()
        invariant
            a <= addrs@.len(),
            found == addrs@,
            init == init_sequence@,
            init.len() == INIT_SEQUENCE_LEN,
            cmds == repeat_seq(init, a as nat),
            probe.len() == cmds.len(),
            writes_match(probe, probe_targets(found.take(a as int), ctrl_byte, init)),
            i2c.write_log() == log1 + probe,
            detected_cmds@ == acked_cmds(cmds, outcomes_of(probe)),
            last_error == last_hard_error(outcomes_of(probe)),
            groups.len() == a,
            probe == groups.flatten(),
            writer@ == out2 + groups_text(found, init, groups),
        decreases addrs@.len() - a,
    {
        let addr = addrs[a];
        let ghost f = |c: u8| (addr, seq![ctrl_byte, c]);
        let ghost base = probe_targets(found.take(a as int), ctrl_byte, init);
        let ghost probe_a = probe;
        let ghost out_a = writer@;
        let ghost mut cur: Seq<WriteEntry<I2C::Error>> = Seq::empty();
        let mut t = String::from_str("Testing init SEQ on ");
        push_byte_hex(&mut t, addr);
        t.append("...");
        write_line(writer, t);
        proof {
            assert(probe_a + cur =~= probe_a);
        }
        let mut j: usize = 0;
        while j < INIT_SEQUENCE_LEN
            invariant
                j <= INIT_SEQUENCE_LEN,
                init == init_sequence@,
                init.len() == INIT_SEQUENCE_LEN,
                addr == found[a as int],
                f == (|c: u8| (addr, seq![ctrl_byte, c])),
                cmds == repeat_seq(init, a as nat) + init.take(j as int),
                probe.len() == cmds.len(),
                writes_match(probe, base + init.take(j as int).map_values(f)),
                i2c.write_log() == log1 + probe,
                detected_cmds@ == acked_cmds(cmds, outcomes_of(probe)),
                last_error == last_hard_error(outcomes_of(probe)),
                cur.len() == j,
                probe == probe_a + cur,
                writer@ == out_a + addr_text(addr, init, cur),
            decreases INIT_SEQUENCE_LEN - j,
        {
            let cmd = init_sequence[j];
            let command_data: [u8; 2] = [ctrl_byte, cmd];
            let ghost c2 = cmds.push(cmd);
            proof {
                assert(c2 =~= repeat_seq(init, a as nat) + init.take(j + 1));
                assert(c2.drop_last() =~= cmds);
            }
            let mut t = String::from_str("  Sending command ");
            push_byte_hex(&mut t, cmd);
            t.append(" to ");
            push_byte_hex(&mut t, addr);
            t.append("...");
            write_line(writer, t);
            let res = i2c.write(addr, &command_data);
            let ghost entry = (addr, command_data@, res);
            let ghost p2 = probe.push(entry);
            proof {
                assert(command_data@ =~= seq![ctrl_byte, cmd]);
                lemma_writes_match_push(probe, base + init.take(j as int).map_values(f), entry);
                assert((base + init.take(j as int).map_values(f)).push((addr, command_data@)) =~= base
                    + init.take(j + 1).map_values(f));
                lemma_outcomes_push(probe, entry);
                assert(outcomes_of(p2).drop_last() =~= outcomes_of(probe));
            }
            match res {
                Ok(_) => {
                    if !contains_byte(&detected_cmds, cmd) {
                        detected_cmds.push(cmd);
                    }
                    let mut t = String::from_str("  Command ");
                    push_byte_hex(&mut t, cmd);
                    t.append(" responded.");
                    write_line(writer, t);
                },
                Err(e) => {
                    let error_kind = e.to_compat(Some(addr));
                    if error_kind != ErrorKind::I2c(I2cError::Nack) {
                        last_error = Some(error_kind);
                        let mut t = String::from_str("  Write failed for ");
                        push_byte_hex(&mut t, cmd);
                        t.append(" at ");
                        push_byte_hex(&mut t, addr);
                        t.append(": ");
                        let d = error_kind.to_debug_text();
                        t.append(d.as_str());
                        write_line(writer, t);
                    } else {
                        let mut t = String::from_str("  Command ");
                        push_byte_hex(&mut t, cmd);
                        t.append(" no response (NACK).");
                        write_line(writer, t);
                    }
                },
            }
            proof {
                let cur2 = cur.push(entry);
                assert(cur2.drop_last() =~= cur);
                assert(init[j as int] == cmd);
                assert(writer@ =~= out_a + addr_text(addr, init, cur2));
                assert(probe_a + cur2 =~= p2);
                cmds = c2;
                probe = p2;
                cur = cur2;
            }
            j += 1;
        }
        proof {
            assert(init.take(INIT_SEQUENCE_LEN as int) =~= init);
            assert(found.take(a + 1).drop_last() =~= found.take(a as int));
            let g2 = groups.push(cur);
            groups.lemma_flatten_push(cur);
            assert(g2.drop_last() =~= groups);
            assert(writer@ =~= out2 + groups_text(found, init, g2));
            groups = g2;
        }
        a += 1;
    }
    proof {
        assert(found.take(found.len() as int) =~= found);
        law_init_scan_shape(init, addrs@.len(), outcomes_of(probe));
    }
    let ghost out3 = writer@;
    write_summary(writer, init_sequence, detected_cmds.as_slice());
    proof {
        assert(detected_cmds@ == acked_cmds(repeat_seq(init, found.len()), outcomes_of(groups.flatten())));
    }
    let r = if detected_cmds.len() == 0 {
        Err(
            match last_error {
                Some(k) => k,
                None => ErrorKind::I2c(I2cError::Nack),
            },
        )
    } else {
        Ok(detected_cmds)
    };
    proof {
        assert(init_scan_log(ctrl_byte, init_sequence@, scan, groups.flatten(), bytes_result(r)));
        assert(i2c.write_log() == log0 + scan + groups.flatten());
        assert(writer@ =~= out0 + init_scan_text(ctrl_byte, init_sequence@, scan, groups));
    }
    r
}

/// The bytes of `init` that are not among `detected`, in order.
pub open spec fn missing_cmds(init: Seq<u8>, detected: Seq<u8>) -> Seq<u8>
    decreases init.len(),
{
    if init.len() == 0 {
        Seq::empty()
    } else {
        missing_cmds(init.drop_last(), detected) + (if detected.contains(init.last()) {
            Seq::empty()
        } else {
            seq![init.last()]
        })
    }
}

/// The commands of `init_sequence` that drew no response, given the ones that
/// did, in the order of the sequence.
pub fn missing_commands(init_sequence: &[u8], detected: &[u8]) -> (r: Vec<u8>)
    ensures
        r@ == missing_cmds(init_sequence@, detected@),
{
    let mut missing: Vec<u8> = Vec::new();
    let mut i: usize = 0;
    while i < init_sequence.len()
        invariant
            i <= init_sequence@.len(),
            missing@ == missing_cmds(init_sequence@.take(i as int), detected@),
        decreases init_sequence@.len() - i,
    {
        let b = init_sequence[i];
        let mut found = false;
        let mut j: usize = 0;
        while j < detected.len()
            invariant
                j <= detected@.len(),
                found == detected@.take(j as int).contains(b),
            decreases detected@.len() - j,
        {
            if detected[j] == b {
                found = true;
            }
            proof {
                let t = detected@.take(j + 1);
                assert(t.drop_last() =~= detected@.take(j as int));
                if t.contains(b) && !detected@.take(j as int).contains(b) {
                    let k = choose|k: int| 0 <= k < t.len() && t[k] == b;
                    if k < j {
                        assert(detected@.take(j as int)[k] == b);
                    }
                }
                if detected@.take(j as int).contains(b) {
                    let k = choose|k: int| 0 <= k < j && detected@.take(j as int)[k] == b;
                    assert(t[k] == b);
                }
                if detected[j as int] == b {
                    assert(t[j as int] == b);
                }
            }
            j += 1;
        }
        assert(detected@.take(detected@.len() as int) =~= detected@);
        if !found {
            missing.push(b);
        }
        assert(init_sequence@.take(i + 1).drop_last() =~= init_sequence@.take(i as int));
        i += 1;
    }
    assert(init_sequence@.take(init_sequence@.len() as int) =~= init_sequence@);
    missing
}

} // verus!
