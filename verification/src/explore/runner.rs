//! Running a command graph against the devices a bus scan finds.

use vstd::prelude::*;
use crate::compat::devices::{device_list, device_list_as_slice, device_list_is_empty};
use crate::compat::err_compat::HalErrorExt;
use crate::compat::i2c_compat::{I2cCompat, WriteEntry};
use crate::compat::util::{garbled_lines, BitFlags};
use crate::error::{explorer_error_of, ErrorKind, ExecutorError, ExplorerError};
use crate::explore::explorer::{
    exec_log_cmd, exec_text, exec_writes, law_topological_order, outcome_text, sending_text, explorer_outcome, frame_result, law_cycle_iff_unorderable, law_exhausted_order,
    prefix_exec_model, retry_answer, retry_writes, runnable, CmdExecutor, CmdNode, Explorer, PrefixExecutor,
    TopologicalIter,
};
use crate::explore::graph::{
    all_below, dep_list, deps_below, dep_ordered, faithful, kahn_order, lemma_dep_list_prefix, layout_in_bounds, layout_ready, lemma_distinct_bounded_int,
    lemma_faithful_layout, lemma_over_capacity, lemma_no_live, lemma_no_live_order, live, live_count, new_error,
    orderable,
};
use crate::compat::text::{push_byte_hex, push_decimal};
use crate::scanner::{
    scan_text, list_result, outcome_of, outcomes_of, scan_i2c, scan_log, scan_result, scan_span, scan_targets, well_formed_scan,
    writes_match, WriteOutcome,
};

verus! {

/// What `one_topological_explorer` does, given the writes it logs: `scan`,
/// the scan with `prefix`; then, after a successful scan and when the
/// iterator can be built, `chunks`, the sends of the commands of `order` to
/// the first device found. A failed scan ends in `NoValidAddressesFound`, an
/// iterator that cannot be built in its error, both with no further write; a
/// command that fails ends the run with its error; else `order` is the whole
/// Kahn order and the result is success on an orderable graph and
/// `DependencyCycle` on any other.
pub open spec fn one_sort_log<E: HalErrorExt>(
    nodes: Seq<CmdNode>,
    n: int,
    max: int,
    prefix: u8,
    cap: nat,
    scan: Seq<WriteEntry<E>>,
    order: Seq<int>,
    chunks: Seq<Seq<WriteEntry<E>>>,
    r: Result<(), ExplorerError>,
) -> bool {
    &&& writes_match(scan, scan_targets(seq![prefix]))
    &&& match scan_result(outcomes_of(scan)) {
        Err(_) => r == Err::<(), ExplorerError>(ExplorerError::NoValidAddressesFound) && chunks.len() == 0,
        Ok(found) => match new_error(nodes, Set::empty(), n, max) {
            Some(e) => r == Err::<(), ExplorerError>(e) && chunks.len() == 0,
            None => {
                &&& sends_log(nodes, prefix, cap, found[0], order, chunks)
                &&& order.no_duplicates()
                &&& dep_ordered(nodes, Set::empty(), order)
                &&& match last_failure(nodes, cap, found[0], order, chunks) {
                    Some(x) => r == Err::<(), ExplorerError>(explorer_error_of(x)),
                    None => {
                        &&& kahn_order(nodes, Set::empty(), order)
                        &&& r == if orderable(nodes, Set::empty()) {
                            Ok::<(), ExplorerError>(())
                        } else {
                            Err(ExplorerError::DependencyCycle)
                        }
                    },
                }
            },
        },
    }
}

/// The iterator can be built for `nodes` and `failed` without a panic.
proof fn lemma_runnable_builds(nodes: Seq<CmdNode>, failed: Set<int>, n: int, max: int)
    requires
        runnable(nodes, failed, n, max),
        0 <= max,
    ensures
        layout_ready(nodes, failed, n, max) ==> layout_in_bounds(nodes, failed, n, max),
{
    if faithful(nodes, failed, n, max) {
        lemma_faithful_layout(nodes, failed, n, max);
    } else if live_count(nodes, failed, nodes.len() as int) == 0 {
        lemma_no_live(nodes, failed, nodes.len() as int);
    }
}

/// The logged writes `w` send command `i` to `addr`: `prefix` followed by
/// its bytes, tried twice, or nothing when that frame does not fit in `cap`
/// bytes.
pub open spec fn send_matches<E>(
    nodes: Seq<CmdNode>,
    prefix: u8,
    cap: nat,
    addr: u8,
    i: int,
    w: Seq<WriteEntry<E>>,
) -> bool {
    if 1 + nodes[i].bytes@.len() > cap {
        w.len() == 0
    } else {
        retry_writes(addr, seq![prefix] + nodes[i].bytes@, w)
    }
}

/// What the executor answers for the send of command `i` with the logged
/// writes `w`.
pub open spec fn send_answer<E: HalErrorExt>(
    nodes: Seq<CmdNode>,
    cap: nat,
    addr: u8,
    i: int,
    w: Seq<WriteEntry<E>>,
) -> Result<(), ExecutorError> {
    frame_result(cap, nodes[i].bytes@.len(), retry_answer(addr, w))
}

/// The logged writes `chunks` are the sends of the commands of `order`, one
/// after the other, to `addr`, and every send but the last was acknowledged.
pub open spec fn sends_log<E: HalErrorExt>(
    nodes: Seq<CmdNode>,
    prefix: u8,
    cap: nat,
    addr: u8,
    order: Seq<int>,
    chunks: Seq<Seq<WriteEntry<E>>>,
) -> bool {
    &&& chunks.len() == order.len()
    &&& forall|k: int|
        0 <= k < order.len() ==> #[trigger] send_matches(nodes, prefix, cap, addr, order[k], chunks[k])
    &&& forall|k: int|
        0 <= k < order.len() - 1 ==> #[trigger] send_answer(nodes, cap, addr, order[k], chunks[k]) is Ok
}

/// The error of the last send of `order`, when it failed.
pub open spec fn last_failure<E: HalErrorExt>(
    nodes: Seq<CmdNode>,
    cap: nat,
    addr: u8,
    order: Seq<int>,
    chunks: Seq<Seq<WriteEntry<E>>>,
) -> Option<ExecutorError> {
    if order.len() > 0 {
        match send_answer(nodes, cap, addr, order.last(), chunks.last()) {
            Ok(_) => None,
            Err(e) => Some(e),
        }
    } else {
        None
    }
}

/// Runs `it` to its end, sending each returned command to `addr` through
/// `executor`; stops at the first command that fails.
fn run_sorted<'a, I2C, const N: usize, const MAX_DEPS: usize, const INIT_SEQUENCE_LEN: usize, const CMD_BUFFER_SIZE: usize>(
    it: &mut TopologicalIter<'a, N, MAX_DEPS>,
    nodes: &'a [CmdNode],
    i2c: &mut I2C,
    executor: &mut PrefixExecutor<INIT_SEQUENCE_LEN, CMD_BUFFER_SIZE>,
    writer: &mut String,
    addr: u8,
) -> (r: Result<(), ExplorerError>)
    where
        I2C: I2cCompat,
        I2C::Error: HalErrorExt,
    requires
        addr < 128,
        old(executor).init_seq().len() == 0,
        old(it).wf(),
        old(it).node_seq() == nodes@,
        old(it).emitted() == Seq::<int>::empty(),
        old(it).kahn_inv() || (old(it).queue_view().len() == 0 && old(it).visited() == 0),
        old(it).visited() <= nodes@.len(),
    ensures
        final(it).node_seq() == old(it).node_seq(),
        final(it).failed_set() == old(it).failed_set(),
        final(it).total() == old(it).total(),
        r is Ok ==> final(it).queue_view().len() == 0,
        old(it).kahn_inv() ==> final(it).kahn_inv(),
        !old(it).kahn_inv() ==> final(it).visited() == 0,
        !old(it).kahn_inv() ==> final(it).emitted().len() == 0,
        old(writer)@.is_prefix_of(final(writer)@),
        exists|chunks: Seq<Seq<WriteEntry<I2C::Error>>>|
            #[trigger] sends_log(
                nodes@,
                old(executor).prefix(),
                CMD_BUFFER_SIZE as nat,
                addr,
                final(it).emitted(),
                chunks,
            ) && final(i2c).write_log() == old(i2c).write_log() + chunks.flatten() && match r {
                Ok(_) => last_failure(nodes@, CMD_BUFFER_SIZE as nat, addr, final(it).emitted(), chunks)
                    is None,
                Err(e) => exists|x: ExecutorError|
                    last_failure(nodes@, CMD_BUFFER_SIZE as nat, addr, final(it).emitted(), chunks)
                        == Some(x) && e == #[trigger] explorer_error_of(x),
            },
{
    let ghost good = it.kahn_inv();
    let ghost pf = executor.prefix();
    let ghost log0 = i2c.write_log();
    let ghost cap = CMD_BUFFER_SIZE as nat;
    let ghost mut chunks: Seq<Seq<WriteEntry<I2C::Error>>> = Seq::empty();
    let ghost w0 = writer@;
    proof {
        assert(w0 =~= w0.subrange(0, w0.len() as int));
    }
    loop
        invariant_except_break
            it.wf(),
            it.node_seq() == nodes@,
            old(it).node_seq() == nodes@,
            good == old(it).kahn_inv(),
            it.failed_set() == old(it).failed_set(),
            it.total() == old(it).total(),
            good ==> it.kahn_inv(),
            !good ==> it.queue_view().len() == 0 && it.visited() == 0,
            !good ==> it.emitted().len() == 0,
            it.visited() <= nodes@.len(),
            cap == CMD_BUFFER_SIZE,
            addr < 128,
            executor.prefix() == pf,
            pf == old(executor).prefix(),
            executor.init_seq().len() == 0,
            sends_log(nodes@, pf, cap, addr, it.emitted(), chunks),
            last_failure(nodes@, cap, addr, it.emitted(), chunks) is None,
            i2c.write_log() == log0 + chunks.flatten(),
            log0 == old(i2c).write_log(),
            w0 == old(writer)@,
            w0.is_prefix_of(writer@),
        ensures
            it.node_seq() == nodes@,
            old(it).node_seq() == nodes@,
            good == old(it).kahn_inv(),
            it.failed_set() == old(it).failed_set(),
            it.total() == old(it).total(),
            it.queue_view().len() == 0,
            good ==> it.kahn_inv(),
            !good ==> it.visited() == 0,
            !good ==> it.emitted().len() == 0,
            sends_log(nodes@, pf, cap, addr, it.emitted(), chunks),
            last_failure(nodes@, cap, addr, it.emitted(), chunks) is None,
            i2c.write_log() == log0 + chunks.flatten(),
            pf == old(executor).prefix(),
            log0 == old(i2c).write_log(),
            cap == CMD_BUFFER_SIZE,
            w0 == old(writer)@,
            w0.is_prefix_of(writer@),
        decreases nodes@.len() - it.visited(),
    {
        proof {
            if good {
                it.lemma_kahn_step_ok();
            }
        }
        let ghost q = it.queue_view();
        let ghost em0 = it.emitted();
        match it.next() {
            None => {
                break;
            },
            Some(cmd_idx) => {
                proof {
                    assert(good);
                    assert(q.contains(q.last()));
                    assert(live(it.node_seq(), it.failed_set(), q.last() as int));
                    let done = it.emitted();
                    assert forall|k: int| 0 <= k < done.len() implies 0 <= #[trigger] done[k] < nodes@.len() by {
                        assert(live(it.node_seq(), it.failed_set(), done[k]));
                    }
                    lemma_distinct_bounded_int(done, nodes@.len() as int);
                }
                let cmd_bytes = nodes[cmd_idx].bytes;
                let ghost ex0 = *executor;
                let ghost bus0 = i2c.write_log();
                let ghost wb = writer@;
                let ghost b0 = *i2c;
                let res = exec_log_cmd::<I2C, PrefixExecutor<INIT_SEQUENCE_LEN, CMD_BUFFER_SIZE>, CMD_BUFFER_SIZE>(
                    i2c,
                    executor,
                    writer,
                    addr,
                    cmd_bytes,
                    cmd_idx,
                );
                let ghost em = it.emitted();
                let ghost mut ans: Result<(), ExecutorError> = Ok(());
                proof {
                    lemma_exec_log_grows::<I2C, INIT_SEQUENCE_LEN, CMD_BUFFER_SIZE>(
                        ex0,
                        *executor,
                        b0,
                        *i2c,
                        addr,
                        cmd_bytes@,
                        cmd_idx as nat,
                        res,
                        wb,
                        writer@,
                    );
                    lemma_prefix_extend(w0, wb, writer@.subrange(wb.len() as int, writer@.len() as int));
                    assert(wb + writer@.subrange(wb.len() as int, writer@.len() as int) =~= writer@);
                    let (pw, iw, cw) = choose|
                        pw: Seq<WriteEntry<I2C::Error>>,
                        iw: Seq<WriteEntry<I2C::Error>>,
                        cw: Seq<WriteEntry<I2C::Error>>,
                    |
                        #[trigger] exec_writes(
                            ex0.initialized(),
                            ex0.init_seq(),
                            ex0.prefix(),
                            cap,
                            addr,
                            cmd_bytes@,
                            pw,
                            iw,
                            cw,
                        ) && i2c.write_log() == bus0 + pw + iw + cw && (exists|o: Result<(), ExecutorError>|
                            prefix_exec_model(
                                ex0.initialized(),
                                ex0.init_seq().len(),
                                cap,
                                addr,
                                cmd_bytes@.len(),
                                retry_answer(addr, pw),
                                retry_answer(addr, iw),
                                retry_answer(addr, cw),
                            ) == (o, executor.initialized()) && res == explorer_outcome(o));
                    assert(pw.len() == 0 && iw.len() == 0);
                    assert(i2c.write_log() == bus0 + cw);
                    ans = choose|o: Result<(), ExecutorError>|
                        prefix_exec_model(
                            ex0.initialized(),
                            ex0.init_seq().len(),
                            cap,
                            addr,
                            cmd_bytes@.len(),
                            retry_answer(addr, pw),
                            retry_answer(addr, iw),
                            retry_answer(addr, cw),
                        ) == (o, executor.initialized()) && res == explorer_outcome(o);
                    assert(ans == send_answer(nodes@, cap, addr, cmd_idx as int, cw));
                    let i = cmd_idx as int;
                    assert(em == em0.push(i));
                    assert(send_matches(nodes@, pf, cap, addr, i, cw));
                    let ch2 = chunks.push(cw);
                    chunks.lemma_flatten_push(cw);
                    assert forall|k: int| 0 <= k < em.len() implies #[trigger] send_matches(
                        nodes@,
                        pf,
                        cap,
                        addr,
                        em[k],
                        ch2[k],
                    ) by {
                        if k < em0.len() {
                            assert(em[k] == em0[k]);
                            assert(ch2[k] == chunks[k]);
                        }
                    }
                    assert forall|k: int| 0 <= k < em.len() - 1 implies #[trigger] send_answer(
                        nodes@,
                        cap,
                        addr,
                        em[k],
                        ch2[k],
                    ) is Ok by {
                        assert(em[k] == em0[k]);
                        assert(ch2[k] == chunks[k]);
                        if k == em0.len() - 1 {
                            assert(last_failure(nodes@, cap, addr, em0, chunks) is None);
                        }
                    }
                    chunks = ch2;
                }
                match res {
                    Ok(_) => {},
                    Err(e) => {
                        proof {
                            let x = ans->Err_0;
                            assert(em.last() == cmd_idx as int);
                            assert(ans is Err);
                            assert(sends_log(nodes@, pf, cap, addr, em, chunks));
                            assert(i2c.write_log() == log0 + chunks.flatten());
                            assert(last_failure(nodes@, cap, addr, it.emitted(), chunks) == Some(x));
                            assert(e == explorer_error_of(x));
                        }
                        return Err(e);
                    },
                }
            },
        }
    }
    Ok(())
}

/// `a` stays a prefix of what it prefixes when more is written after it.
proof fn lemma_prefix_extend(a: Seq<char>, b: Seq<char>, x: Seq<char>)
    requires
        a.is_prefix_of(b),
    ensures
        a.is_prefix_of(b + x),
{
    assert((b + x).subrange(0, a.len() as int) =~= b.subrange(0, a.len() as int));
}

/// Running one command through the prefixing executor only adds text.
proof fn lemma_exec_log_grows<I2C: I2cCompat, const INIT_SEQUENCE_LEN: usize, const CMD_BUFFER_SIZE: usize>(
    ex0: PrefixExecutor<INIT_SEQUENCE_LEN, CMD_BUFFER_SIZE>,
    ex1: PrefixExecutor<INIT_SEQUENCE_LEN, CMD_BUFFER_SIZE>,
    b0: I2C,
    b1: I2C,
    addr: u8,
    cmd: Seq<u8>,
    idx: nat,
    r: Result<(), ExplorerError>,
    w0: Seq<char>,
    w1: Seq<char>,
)
    where
        I2C::Error: HalErrorExt,
    requires
        exists|o: Result<(), ExecutorError>, mid: Seq<char>|
            #[trigger] ex1.executed(&ex0, &b0, &b1, addr, cmd, o, w0 + garbled_lines(sending_text(idx, cmd), 0), mid)
                && r == explorer_outcome(o) && w1 == mid + garbled_lines(outcome_text(o), 0),
    ensures
        w0.is_prefix_of(w1),
{
    let (o, mid) = choose|o: Result<(), ExecutorError>, mid: Seq<char>|
        #[trigger] ex1.executed(&ex0, &b0, &b1, addr, cmd, o, w0 + garbled_lines(sending_text(idx, cmd), 0), mid)
            && r == explorer_outcome(o) && w1 == mid + garbled_lines(outcome_text(o), 0);
    let (probe, init_w, cmd_w) = choose|
        probe: Seq<WriteEntry<I2C::Error>>,
        init_w: Seq<WriteEntry<I2C::Error>>,
        cmd_w: Seq<WriteEntry<I2C::Error>>,
    |
        #[trigger] exec_writes(
            ex0.initialized(),
            ex0.init_seq(),
            ex0.prefix(),
            CMD_BUFFER_SIZE as nat,
            addr,
            cmd,
            probe,
            init_w,
            cmd_w,
        ) && b1.write_log() == b0.write_log() + probe + init_w + cmd_w && prefix_exec_model(
            ex0.initialized(),
            ex0.init_seq().len(),
            CMD_BUFFER_SIZE as nat,
            addr,
            cmd.len(),
            retry_answer(addr, probe),
            retry_answer(addr, init_w),
            retry_answer(addr, cmd_w),
        ) == (o, ex1.initialized()) && mid == w0 + garbled_lines(sending_text(idx, cmd), 0) + exec_text(
            ex0.initialized(),
            ex0.init_seq(),
            CMD_BUFFER_SIZE as nat,
            addr,
            cmd.len(),
            probe,
            init_w,
            cmd_w,
        );
    assert(w1.subrange(0, w0.len() as int) =~= w0);
}

/// Appends `text` to `serial`.
fn append_text(serial: &mut String, text: &str)
    ensures
        final(serial)@ == old(serial)@ + text@,
        old(serial)@.is_prefix_of(final(serial)@),
{
    let ghost before = serial@;
    serial.append(text);
    assert(before =~= serial@.subrange(0, before.len() as int));
}

/// Being a prefix carries over.
proof fn lemma_prefix_trans(a: Seq<char>, b: Seq<char>, c: Seq<char>)
    requires
        a.is_prefix_of(b),
        b.is_prefix_of(c),
    ensures
        a.is_prefix_of(c),
{
    assert(c.subrange(0, a.len() as int) =~= b.subrange(0, a.len() as int));
}

/// Finds the devices on the bus, orders the commands once with their
/// dependencies first, and sends them in that order (each after `prefix`) to
/// the first device found.
pub fn one_topological_explorer<
    I2C,
    const N: usize,
    const INIT_SEQUENCE_LEN: usize,
    const CMD_BUFFER_SIZE: usize,
    const MAX_DEPS: usize,
>(explorer: &Explorer<N, MAX_DEPS>, i2c: &mut I2C, serial: &mut String, prefix: u8) -> (r: Result<
    (),
    ExplorerError,
>)
    where
        I2C: I2cCompat,
        I2C::Error: HalErrorExt,
    requires
        runnable(explorer.nodes@, Set::empty(), N as int, MAX_DEPS as int),
    ensures
        exists|
            scan: Seq<WriteEntry<I2C::Error>>,
            order: Seq<int>,
            chunks: Seq<Seq<WriteEntry<I2C::Error>>>,
        |
            #[trigger] one_sort_log(
                explorer.nodes@,
                N as int,
                MAX_DEPS as int,
                prefix,
                CMD_BUFFER_SIZE as nat,
                scan,
                order,
                chunks,
                r,
            ) && final(i2c).write_log() == old(i2c).write_log() + scan + chunks.flatten() && (old(serial)@
                + "[exprore] Attempting to get 1 init seq ...\r\n"@ + scan_text(prefix, scan)).is_prefix_of(
                final(serial)@,
            ),
{
    let ghost nodes = explorer.nodes@;
    let ghost cap = CMD_BUFFER_SIZE as nat;
    let ghost log0 = i2c.write_log();
    let ghost none: Seq<Seq<WriteEntry<I2C::Error>>> = Seq::empty();
    proof {
        assert(none.flatten() =~= Seq::<WriteEntry<I2C::Error>>::empty());
    }
    let ghost out_start = serial@;
    append_text(serial, "[exprore] Attempting to get 1 init seq ...\r\n");
    let ghost out0 = serial@;
    let scanned = scan_i2c(i2c, serial, prefix);
    let ghost scan = choose|entries: Seq<WriteEntry<I2C::Error>>|
        #[trigger] scan_log(seq![prefix], entries, list_result(scanned)) && i2c.write_log() == log0
            + entries && serial@ == out0 + scan_text(prefix, entries);
    let ghost head = out_start + "[exprore] Attempting to get 1 init seq ...\r\n"@ + scan_text(prefix, scan);
    proof {
        assert(serial@ =~= head);
        assert(serial@.subrange(0, serial@.len() as int) =~= serial@);
    }
    let target_addr = match scanned {
        Ok(addr) => addr,
        Err(e) => {
            let mut t = String::from_str("[error] Failed to scan I2C: ");
            let et = e.to_text();
            t.append(et.as_str());
            t.append("\r\n");
            let ghost w = serial@;
            append_text(serial, t.as_str());
            proof {
                lemma_prefix_trans(head, w, serial@);
                assert(one_sort_log(
                    nodes,
                    N as int,
                    MAX_DEPS as int,
                    prefix,
                    cap,
                    scan,
                    Seq::empty(),
                    none,
                    Err(ExplorerError::NoValidAddressesFound),
                ));
                assert(i2c.write_log() == log0 + scan + none.flatten());
            }
            return Err(ExplorerError::NoValidAddressesFound);
        },
    };
    let ghost log1 = i2c.write_log();
    if device_list_is_empty(&target_addr) {
        assert(false);
        return Err(ExplorerError::NoValidAddressesFound);
    }
    let addrs = device_list_as_slice(&target_addr);
    let addr = addrs[0];
    assert(addr < 128);
    let failed_nodes = BitFlags::new();
    proof {
        lemma_runnable_builds(nodes, failed_nodes@, N as int, MAX_DEPS as int);
        assert(log1 == log0 + scan + none.flatten());
    }
    let mut sort_iter = match explorer.topological_iter(&failed_nodes) {
        Ok(iter) => iter,
        Err(e) => {
            let mut t = String::from_str("[E] Failed to GEN topological sort: ");
            let et = e.to_text();
            t.append(et.as_str());
            t.append(". Aborting.\r\n");
            let ghost w = serial@;
            append_text(serial, t.as_str());
            proof {
                lemma_prefix_trans(head, w, serial@);
            }
            assert(one_sort_log(nodes, N as int, MAX_DEPS as int, prefix, cap, scan, Seq::empty(), none, Err(e)));
            return Err(e);
        },
    };
    let mut t = String::from_str("[explorer] Obtained one topological sort. Executing on ");
    push_byte_hex(&mut t, addr);
    t.append("...\r\n");
    let ghost w1 = serial@;
    append_text(serial, t.as_str());
    proof {
        lemma_prefix_trans(head, w1, serial@);
    }
    let ghost w2 = serial@;
    let ghost good = faithful(nodes, Set::empty(), N as int, MAX_DEPS as int);
    proof {
        if !good {
            lemma_no_live(nodes, Set::empty(), nodes.len() as int);
            lemma_no_live_order(nodes, Set::empty());
        }
    }
    let empty_seq: [u8; 0] = [];
    let mut executor = PrefixExecutor::<INIT_SEQUENCE_LEN, CMD_BUFFER_SIZE>::new(prefix, &empty_seq);
    let ran = run_sorted(&mut sort_iter, explorer.nodes, i2c, &mut executor, serial, addr);
    proof {
        lemma_prefix_trans(head, w2, serial@);
    }
    let ghost order = sort_iter.emitted();
    let ghost chunks = choose|chunks: Seq<Seq<WriteEntry<I2C::Error>>>|
        #[trigger] sends_log(nodes, prefix, cap, addr, order, chunks) && i2c.write_log() == log1
            + chunks.flatten() && match ran {
            Ok(_) => last_failure(nodes, cap, addr, order, chunks) is None,
            Err(e) => exists|x: ExecutorError|
                last_failure(nodes, cap, addr, order, chunks) == Some(x) && e == #[trigger] explorer_error_of(x),
        };
    proof {
        assert(i2c.write_log() == log0 + scan + chunks.flatten());
        if good {
            law_topological_order(&sort_iter);
        } else {
            assert(order =~= Seq::<int>::empty());
        }
    }
    match ran {
        Ok(_) => {},
        Err(e) => {
            proof {
                let x = choose|x: ExecutorError|
                    last_failure(nodes, cap, addr, order, chunks) == Some(x) && e == #[trigger] explorer_error_of(x);
                assert(one_sort_log(nodes, N as int, MAX_DEPS as int, prefix, cap, scan, order, chunks, Err(e)));
            }
            return Err(e);
        },
    }
    proof {
        if good {
            law_cycle_iff_unorderable(&sort_iter);
            law_exhausted_order(&sort_iter);
        }
    }
    if sort_iter.is_cycle_detected() {
        let ghost w = serial@;
        append_text(serial, "[error] Dependency cycle detected!\r\n");
        proof {
            lemma_prefix_trans(head, w, serial@);
        }
        assert(one_sort_log(
            nodes,
            N as int,
            MAX_DEPS as int,
            prefix,
            cap,
            scan,
            order,
            chunks,
            Err(ExplorerError::DependencyCycle),
        ));
        return Err(ExplorerError::DependencyCycle);
    }
    let mut t = String::from_str("[explorer] Single sequence execution complete for ");
    push_byte_hex(&mut t, addr);
    t.append(".\r\n");
    let ghost w = serial@;
    append_text(serial, t.as_str());
    proof {
        lemma_prefix_trans(head, w, serial@);
    }
    assert(one_sort_log(nodes, N as int, MAX_DEPS as int, prefix, cap, scan, order, chunks, Ok(())));
    Ok(())
}

/// The bytes of the commands of `order`, one after the other.
pub open spec fn batch_bytes(nodes: Seq<CmdNode>, order: Seq<int>) -> Seq<u8>
    decreases order.len(),
{
    if order.len() == 0 {
        Seq::empty()
    } else {
        batch_bytes(nodes, order.drop_last()) + nodes[order.last()].bytes@
    }
}

/// Some order of distinct live commands, each after its dependencies, has
/// more bytes than a batch of `cap` bytes holds after the prefix byte.
pub open spec fn overflows(nodes: Seq<CmdNode>, failed: Set<int>, cap: int) -> bool {
    exists|o: Seq<int>|
        o.no_duplicates() && dep_ordered(nodes, failed, o) && 1 + (#[trigger] batch_bytes(nodes, o)).len()
            > cap
}

/// The nodes a failed batch marks as failed: those below both `len` and 128.
pub open spec fn all_marked(len: int) -> Set<int> {
    Set::new(|i: int| 0 <= i < len && i < 128)
}

/// What one address does to the failed set, or the error that stops the run,
/// given whether the batch write to it was acknowledged.
pub open spec fn prune_step(
    nodes: Seq<CmdNode>,
    failed: Set<int>,
    n: int,
    max: int,
    cap: int,
    write_ok: bool,
) -> Result<Set<int>, ExplorerError> {
    if new_error(nodes, failed, n, max) is Some {
        Ok(failed)
    } else if cap == 0 || overflows(nodes, failed, cap) {
        Err(ExplorerError::BufferOverflow)
    } else if !orderable(nodes, failed) {
        Err(ExplorerError::DependencyCycle)
    } else if write_ok {
        Ok(failed)
    } else {
        Ok(failed.union(all_marked(nodes.len() as int)))
    }
}

/// The failed set after the addresses whose batch writes had the outcomes
/// `oks`, starting from no failed node, or the error that stopped the run.
pub open spec fn prune_fold(nodes: Seq<CmdNode>, n: int, max: int, cap: int, oks: Seq<bool>) -> Result<
    Set<int>,
    ExplorerError,
>
    decreases oks.len(),
{
    if oks.len() == 0 {
        Ok(Set::empty())
    } else {
        match prune_fold(nodes, n, max, cap, oks.drop_last()) {
            Ok(failed) => prune_step(nodes, failed, n, max, cap, oks.last()),
            Err(e) => Err(e),
        }
    }
}

/// Whether each logged batch was acknowledged; an address that got no batch
/// counts as acknowledged.
pub open spec fn batch_oks<E>(batches: Seq<Seq<WriteEntry<E>>>) -> Seq<bool> {
    batches.map_values(|w: Seq<WriteEntry<E>>| w.len() == 0 || w[0].2 is Ok)
}

/// The logged writes `w` are what `pruning_explorer` sends to `addr` in the
/// state `state`: nothing once the run has stopped, or when the iterator
/// cannot be built, the batch does not fit or the graph has a cycle; else
/// one write of `prefix` followed by the bytes of the commands in a Kahn
/// order of the commands not marked as failed.
pub open spec fn batch_shape<E>(
    nodes: Seq<CmdNode>,
    n: int,
    max: int,
    cap: int,
    prefix: u8,
    state: Result<Set<int>, ExplorerError>,
    addr: u8,
    w: Seq<WriteEntry<E>>,
) -> bool {
    match state {
        Err(_) => w.len() == 0,
        Ok(failed) => if new_error(nodes, failed, n, max) is Some || cap == 0 || overflows(
            nodes,
            failed,
            cap,
        ) || !orderable(nodes, failed) {
            w.len() == 0
        } else {
            &&& w.len() == 1
            &&& w[0].0 == addr
            &&& exists|o: Seq<int>|
                #[trigger] kahn_order(nodes, failed, o) && w[0].1 == seq![prefix] + batch_bytes(nodes, o)
        },
    }
}

/// The kind of the error of the first batch, among `batches` sent to the
/// addresses of `found`, that was not acknowledged.
pub open spec fn first_failure<E: HalErrorExt>(found: Seq<u8>, batches: Seq<Seq<WriteEntry<E>>>) -> Option<
    ErrorKind,
>
    decreases batches.len(),
{
    if batches.len() == 0 {
        None
    } else {
        match first_failure(found, batches.drop_last()) {
            Some(k) => Some(k),
            None => {
                let w = batches.last();
                if w.len() > 0 && w[0].2 is Err {
                    outcome_of(found[batches.len() - 1], w[0].2)
                } else {
                    None
                }
            },
        }
    }
}

/// What `pruning_explorer` does, given the writes it logs: `scan`, the scan
/// with `prefix`; then `batches`, what it sends to each address found, in
/// order. A failed scan ends in `NoValidAddressesFound` with no batch; a run
/// that stops (the batch does not fit, or the graph has a cycle) ends in that
/// error; else the result is success when every batch was acknowledged, and
/// `ExecutionFailed` with the error of the first batch that was not.
pub open spec fn prune_log<E: HalErrorExt>(
    nodes: Seq<CmdNode>,
    n: int,
    max: int,
    cap: int,
    prefix: u8,
    scan: Seq<WriteEntry<E>>,
    batches: Seq<Seq<WriteEntry<E>>>,
    r: Result<(), ExplorerError>,
) -> bool {
    &&& writes_match(scan, scan_targets(seq![prefix]))
    &&& match scan_result(outcomes_of(scan)) {
        Err(_) => r == Err::<(), ExplorerError>(ExplorerError::NoValidAddressesFound) && batches.len() == 0,
        Ok(found) => {
            &&& batches.len() == found.len()
            &&& forall|i: int|
                0 <= i < found.len() ==> #[trigger] batch_shape(
                    nodes,
                    n,
                    max,
                    cap,
                    prefix,
                    prune_fold(nodes, n, max, cap, batch_oks(batches.take(i))),
                    found[i],
                    batches[i],
                )
            &&& r == match prune_fold(nodes, n, max, cap, batch_oks(batches)) {
                Err(e) => Err(e),
                Ok(_) => match first_failure(found, batches) {
                    None => Ok::<(), ExplorerError>(()),
                    Some(k) => Err(ExplorerError::ExecutionFailed(k)),
                },
            }
        },
    }
}

/// Padding a stopped run with empty batches keeps its writes and its error.
proof fn lemma_pad_batches<E>(
    nodes: Seq<CmdNode>,
    n: int,
    max: int,
    cap: int,
    batches: Seq<Seq<WriteEntry<E>>>,
    m: nat,
) -> (padded: Seq<Seq<WriteEntry<E>>>)
    requires
        prune_fold(nodes, n, max, cap, batch_oks(batches)) is Err,
    ensures
        padded.len() == batches.len() + m,
        padded.take(batches.len() as int) == batches,
        padded.flatten() == batches.flatten(),
        prune_fold(nodes, n, max, cap, batch_oks(padded)) == prune_fold(nodes, n, max, cap, batch_oks(batches)),
        forall|i: int|
            batches.len() <= i < padded.len() ==> (#[trigger] padded[i]).len() == 0 && prune_fold(
                nodes,
                n,
                max,
                cap,
                batch_oks(padded.take(i)),
            ) is Err,
    decreases m,
{
    if m == 0 {
        assert(batches.take(batches.len() as int) =~= batches);
        batches
    } else {
        let p = lemma_pad_batches(nodes, n, max, cap, batches, (m - 1) as nat);
        let q = p.push(Seq::empty());
        p.lemma_flatten_push(Seq::empty());
        assert(p.flatten() + Seq::<WriteEntry<E>>::empty() =~= p.flatten());
        assert(batch_oks(q).drop_last() =~= batch_oks(p));
        assert(q.take(batches.len() as int) =~= p.take(batches.len() as int));
        assert forall|i: int| batches.len() <= i < q.len() implies (#[trigger] q[i]).len() == 0 && prune_fold(
            nodes,
            n,
            max,
            cap,
            batch_oks(q.take(i)),
        ) is Err by {
            if i < p.len() {
                assert(q.take(i) =~= p.take(i));
                assert(q[i] == p[i]);
            } else {
                assert(q.take(i) =~= p);
            }
        }
        q
    }
}

/// Removing one entry from an order removes its bytes from the batch.
proof fn lemma_batch_remove(nodes: Seq<CmdNode>, k: Seq<int>, i: int)
    requires
        0 <= i < k.len(),
    ensures
        batch_bytes(nodes, k).len() == batch_bytes(nodes, k.remove(i)).len() + nodes[k[i]].bytes@.len(),
    decreases k.len(),
{
    if i == k.len() - 1 {
        assert(k.remove(i) =~= k.drop_last());
    } else {
        lemma_batch_remove(nodes, k.drop_last(), i);
        assert(k.remove(i).drop_last() =~= k.drop_last().remove(i));
        assert(k.remove(i).last() == k.last());
    }
}

/// A batch of distinct commands taken from a distinct order is no longer than
/// the batch of the order.
proof fn lemma_batch_subset(nodes: Seq<CmdNode>, o: Seq<int>, k: Seq<int>)
    requires
        o.no_duplicates(),
        k.no_duplicates(),
        forall|j: int| 0 <= j < o.len() ==> k.contains(#[trigger] o[j]),
    ensures
        batch_bytes(nodes, o).len() <= batch_bytes(nodes, k).len(),
    decreases o.len(),
{
    if o.len() > 0 {
        let x = o.last();
        assert(k.contains(o[o.len() - 1]));
        let i = choose|i: int| 0 <= i < k.len() && k[i] == x;
        let k2 = k.remove(i);
        lemma_batch_remove(nodes, k, i);
        let o2 = o.drop_last();
        assert forall|j: int| 0 <= j < o2.len() implies k2.contains(#[trigger] o2[j]) by {
            assert(o2[j] == o[j]);
            assert(k.contains(o[j]));
            let m = choose|m: int| 0 <= m < k.len() && k[m] == o[j];
            assert(o[j] != x);
            assert(m != i);
            if m < i {
                assert(k2[m] == k[m]);
            } else {
                assert(k2[m - 1] == k[m]);
            }
        }
        assert forall|a: int, b: int| 0 <= a < b < k2.len() implies k2[a] != k2[b] by {
            let aa = if a < i { a } else { a + 1 };
            let bb = if b < i { b } else { b + 1 };
            assert(k2[a] == k[aa]);
            assert(k2[b] == k[bb]);
        }
        lemma_batch_subset(nodes, o2, k2);
    }
}

/// Runs `it` to its end and collects `prefix` followed by the bytes of every
/// returned command; stops as soon as the batch would outgrow
/// `CMD_BUFFER_SIZE` bytes, with the number of bytes it would have needed
/// (`usize::MAX` where that number does not fit).
fn build_batch<'a, const N: usize, const MAX_DEPS: usize, const CMD_BUFFER_SIZE: usize>(
    it: &mut TopologicalIter<'a, N, MAX_DEPS>,
    nodes: &'a [CmdNode],
    failed_nodes: &BitFlags,
    prefix: u8,
) -> (r: Result<Vec<u8>, usize>)
    requires
        CMD_BUFFER_SIZE > 0,
        old(it).built_from(nodes@, failed_nodes@),
        old(it).kahn_inv() || live_count(nodes@, failed_nodes@, nodes@.len() as int) == 0,
    ensures
        final(it).node_seq() == nodes@,
        final(it).failed_set() == failed_nodes@,
        final(it).total() == old(it).total(),
        old(it).kahn_inv() ==> final(it).kahn_inv(),
        !old(it).kahn_inv() ==> final(it).visited() == 0,
        !old(it).kahn_inv() ==> final(it).emitted().len() == 0,
        match r {
            Ok(batch) => {
                &&& final(it).queue_view().len() == 0
                &&& batch@ == seq![prefix] + batch_bytes(nodes@, final(it).emitted())
                &&& !overflows(nodes@, failed_nodes@, CMD_BUFFER_SIZE as int)
            },
            Err(need) => (need > CMD_BUFFER_SIZE || need == usize::MAX) && overflows(
                nodes@,
                failed_nodes@,
                CMD_BUFFER_SIZE as int,
            ),
        },
{
    let ghost good = it.kahn_inv();
    let ghost failed = failed_nodes@;
    proof {
        if !good {
            lemma_no_live(nodes@, failed, nodes@.len() as int);
        }
    }
    let mut batched: Vec<u8> = Vec::new();
    batched.push(prefix);
    assert(batch_bytes(nodes@, it.emitted()) =~= Seq::<u8>::empty());
    loop
        invariant_except_break
            it.wf(),
            it.node_seq() == nodes@,
            it.failed_set() == failed,
            failed == failed_nodes@,
            it.total() == old(it).total(),
            good == old(it).kahn_inv(),
            good ==> it.kahn_inv(),
            !good ==> it.queue_view().len() == 0 && it.visited() == 0,
            !good ==> it.emitted().len() == 0,
            !good ==> forall|v: int| !live(nodes@, failed, v),
            it.visited() <= nodes@.len(),
            CMD_BUFFER_SIZE > 0,
            batched@ == seq![prefix] + batch_bytes(nodes@, it.emitted()),
            batched@.len() <= CMD_BUFFER_SIZE,
        ensures
            it.node_seq() == nodes@,
            it.failed_set() == failed,
            failed == failed_nodes@,
            it.total() == old(it).total(),
            good == old(it).kahn_inv(),
            good ==> it.kahn_inv(),
            !good ==> it.visited() == 0,
            !good ==> it.emitted().len() == 0,
            !good ==> forall|v: int| !live(nodes@, failed, v),
            it.queue_view().len() == 0,
            batched@ == seq![prefix] + batch_bytes(nodes@, it.emitted()),
            batched@.len() <= CMD_BUFFER_SIZE,
        decreases nodes@.len() - it.visited(),
    {
        proof {
            if good {
                it.lemma_kahn_step_ok();
            }
        }
        let ghost q = it.queue_view();
        let ghost done0 = it.emitted();
        match it.next() {
            None => {
                break;
            },
            Some(cmd_idx) => {
                let ghost done = it.emitted();
                proof {
                    assert(good);
                    assert(q.contains(q.last()));
                    assert(live(it.node_seq(), it.failed_set(), q.last() as int));
                    assert forall|k: int| 0 <= k < done.len() implies 0 <= #[trigger] done[k] < nodes@.len() by {
                        assert(live(it.node_seq(), it.failed_set(), done[k]));
                    }
                    lemma_distinct_bounded_int(done, nodes@.len() as int);
                    assert(done.drop_last() =~= done0);
                }
                let skip = match failed_nodes.get(cmd_idx) {
                    Ok(b) => b,
                    Err(_) => false,
                };
                if skip {
                    proof {
                        assert(false);
                    }
                } else {
                    let cmd_bytes = nodes[cmd_idx].bytes;
                    if cmd_bytes.len() > CMD_BUFFER_SIZE - batched.len() {
                        proof {
                            assert(done.no_duplicates() && dep_ordered(nodes@, failed, done) && 1
                                + batch_bytes(nodes@, done).len() > CMD_BUFFER_SIZE);
                        }
                        let need = if cmd_bytes.len() <= usize::MAX - batched.len() {
                            batched.len() + cmd_bytes.len()
                        } else {
                            usize::MAX
                        };
                        return Err(need);
                    }
                    let mut j: usize = 0;
                    while j < cmd_bytes.len()
                        invariant
                            j <= cmd_bytes@.len(),
                            batched@ == seq![prefix] + batch_bytes(nodes@, done0) + cmd_bytes@.take(
                                j as int,
                            ),
                        decreases cmd_bytes@.len() - j,
                    {
                        batched.push(cmd_bytes[j]);
                        proof {
                            assert(cmd_bytes@.take(j + 1) =~= cmd_bytes@.take(j as int).push(
                                cmd_bytes@[j as int],
                            ));
                        }
                        j += 1;
                    }
                    proof {
                        assert(cmd_bytes@.take(cmd_bytes@.len() as int) =~= cmd_bytes@);
                    }
                }
            },
        }
    }
    proof {
        let done = it.emitted();
        if good {
            law_exhausted_order(it);
            assert forall|o: Seq<int>|
                o.no_duplicates() && dep_ordered(nodes@, failed, o) implies !(1 + (#[trigger] batch_bytes(
                nodes@,
                o,
            )).len() > CMD_BUFFER_SIZE) by {
                assert forall|j: int| 0 <= j < o.len() implies done.contains(#[trigger] o[j]) by {
                    assert(kahn_order(nodes@, failed, done));
                }
                lemma_batch_subset(nodes@, o, done);
            }
        } else {
            assert forall|o: Seq<int>|
                o.no_duplicates() && dep_ordered(nodes@, failed, o) implies !(1 + (#[trigger] batch_bytes(
                nodes@,
                o,
            )).len() > CMD_BUFFER_SIZE) by {
                if o.len() > 0 {
                    assert(live(nodes@, failed, o[0]));
                }
                assert(o =~= Seq::<int>::empty());
            }
        }
    }
    Ok(batched)
}

/// Appends the lines gathered in `lines` to `serial`.
fn flush_lines(serial: &mut String, lines: &String)
    ensures
        final(serial)@ == old(serial)@ + lines@,
        old(serial)@.is_prefix_of(final(serial)@),
{
    let ghost before = serial@;
    serial.append(lines.as_str());
    assert(before =~= serial@.subrange(0, before.len() as int));
}

/// Finds the devices on the bus and, address by address, sends all commands
/// not yet marked as failed in one batch (after `prefix`), ordered with their
/// dependencies first; when a batch is not acknowledged, every command is
/// marked as failed for the addresses that follow.
#[verifier::rlimit(100)]
#[verifier::spinoff_prover]
pub fn pruning_explorer<I2C, const N: usize, const CMD_BUFFER_SIZE: usize, const MAX_DEPS: usize>(
    explorer: &Explorer<N, MAX_DEPS>,
    i2c: &mut I2C,
    serial: &mut String,
    prefix: u8,
) -> (r: Result<(), ExplorerError>)
    where
        I2C: I2cCompat,
        I2C::Error: HalErrorExt,
    requires
        runnable(explorer.nodes@, Set::empty(), N as int, MAX_DEPS as int),
        runnable(
            explorer.nodes@,
            all_marked(explorer.nodes@.len() as int),
            N as int,
            MAX_DEPS as int,
        ),
    ensures
        exists|scan: Seq<WriteEntry<I2C::Error>>, batches: Seq<Seq<WriteEntry<I2C::Error>>>|
            #[trigger] prune_log(
                explorer.nodes@,
                N as int,
                MAX_DEPS as int,
                CMD_BUFFER_SIZE as int,
                prefix,
                scan,
                batches,
                r,
            ) && final(i2c).write_log() == old(i2c).write_log() + scan + batches.flatten() && (old(serial)@
                + scan_text(prefix, scan)).is_prefix_of(final(serial)@),
{
    let ghost nodes = explorer.nodes@;
    let ghost cap = CMD_BUFFER_SIZE as int;
    let ghost log0 = i2c.write_log();
    let ghost none: Seq<Seq<WriteEntry<I2C::Error>>> = Seq::empty();
    proof {
        assert(none.flatten() =~= Seq::<WriteEntry<I2C::Error>>::empty());
    }
    let ghost out0 = serial@;
    let scanned = scan_i2c(i2c, serial, prefix);
    let ghost scan = choose|entries: Seq<WriteEntry<I2C::Error>>|
        #[trigger] scan_log(seq![prefix], entries, list_result(scanned)) && i2c.write_log() == log0
            + entries && serial@ == out0 + scan_text(prefix, entries);
    let target_addrs = match scanned {
        Ok(addrs) => addrs,
        Err(e) => {
            proof {
                assert(serial@.subrange(0, serial@.len() as int) =~= serial@);
                assert((out0 + scan_text(prefix, scan)).is_prefix_of(serial@));
                assert(prune_log(
                    nodes,
                    N as int,
                    MAX_DEPS as int,
                    cap,
                    prefix,
                    scan,
                    none,
                    Err(ExplorerError::NoValidAddressesFound),
                ));
                assert(i2c.write_log() == log0 + scan + none.flatten());
            }
            return Err(ExplorerError::NoValidAddressesFound);
        },
    };
    let ghost log1 = i2c.write_log();
    let ghost out1 = serial@;
    if device_list_is_empty(&target_addrs) {
        assert(false);
        return Err(ExplorerError::NoValidAddressesFound);
    }
    let addrs = device_list_as_slice(&target_addrs);
    let ghost found = addrs@;
    let mut global_failed_nodes = BitFlags::new();
    let mut first_err: Option<ErrorKind> = None;
    let ghost mut batches: Seq<Seq<WriteEntry<I2C::Error>>> = Seq::empty();
    let len = explorer.nodes.len();
    let mut lines = String::new();
    let mut a: usize = 0;
    proof {
        assert(batch_oks(batches) =~= Seq::<bool>::empty());
        assert(log1 == log0 + scan + batches.flatten());
    }
    while a < addrs.len()
        invariant
            a <= addrs@.len(),
            found == addrs@,
            nodes == explorer.nodes@,
            len == nodes.len(),
            cap == CMD_BUFFER_SIZE,
            scan_log(seq![prefix], scan, Ok::<Seq<u8>, ErrorKind>(found)),
            batches.len() == a,
            log0 == old(i2c).write_log(),
            i2c.write_log() == log0 + scan + batches.flatten(),
            forall|i: int|
                0 <= i < a ==> #[trigger] batch_shape(
                    nodes,
                    N as int,
                    MAX_DEPS as int,
                    cap,
                    prefix,
                    prune_fold(nodes, N as int, MAX_DEPS as int, cap, batch_oks(batches.take(i))),
                    found[i],
                    batches[i],
                ),
            prune_fold(nodes, N as int, MAX_DEPS as int, cap, batch_oks(batches)) == Ok::<
                Set<int>,
                ExplorerError,
            >(global_failed_nodes@),
            first_err == first_failure(found, batches),
            global_failed_nodes@ == Set::<int>::empty() || global_failed_nodes@ == all_marked(len as int),
            runnable(nodes, Set::empty(), N as int, MAX_DEPS as int),
            runnable(nodes, all_marked(len as int), N as int, MAX_DEPS as int),
            out0 == old(serial)@,
            out1 == out0 + scan_text(prefix, scan),
            serial@ == out1,
        decreases addrs@.len() - a,
    {
        let addr = addrs[a];
        let mut failed_nodes = global_failed_nodes;
        let ghost g = failed_nodes@;
        let ghost state = prune_fold(nodes, N as int, MAX_DEPS as int, cap, batch_oks(batches));
        let ghost b0 = batches;
        let ghost empty_w: Seq<WriteEntry<I2C::Error>> = Seq::empty();
        let ghost bz = batches.push(empty_w);
        proof {
            lemma_runnable_builds(nodes, g, N as int, MAX_DEPS as int);
            batches.lemma_flatten_push(empty_w);
            assert(batches.flatten() + empty_w =~= batches.flatten());
            assert(batch_oks(bz).drop_last() =~= batch_oks(batches));
            assert(batch_oks(bz).last());
        }
        lines.append("[I] RUN ON ");
        push_byte_hex(&mut lines, addr);
        lines.append("\r\n");
        let built = explorer.topological_iter(&failed_nodes);
        let mut sort_iter = match built {
            Ok(iter) => iter,
            Err(e) => {
                lines.append("[E] Failed GEN topological sort: ");
                let t = e.to_text();
                lines.append(t.as_str());
                lines.append("\r\n");
                proof {
                    assert(batch_shape(nodes, N as int, MAX_DEPS as int, cap, prefix, state, addr, empty_w));
                    lemma_shape_extend(nodes, N as int, MAX_DEPS as int, cap, prefix, found, batches, empty_w);
                    batches = bz;
                }
                a += 1;
                continue ;
            },
        };
        if CMD_BUFFER_SIZE == 0 {
            proof {
                let padded = lemma_pad_batches(
                    nodes,
                    N as int,
                    MAX_DEPS as int,
                    cap,
                    bz,
                    (found.len() - bz.len()) as nat,
                );
                assert(batch_oks(bz).drop_last() =~= batch_oks(batches));
                lemma_prune_stop(nodes, N as int, MAX_DEPS as int, cap, prefix, scan, found, batches, bz, padded, addr);
                assert(prune_log(
                    nodes,
                    N as int,
                    MAX_DEPS as int,
                    cap,
                    prefix,
                    scan,
                    padded,
                    Err(ExplorerError::BufferOverflow),
                ));
                assert(i2c.write_log() == log0 + scan + padded.flatten());
            }
            flush_lines(serial, &lines);
            return Err(ExplorerError::BufferOverflow);
        }
        proof {
            if !faithful(nodes, g, N as int, MAX_DEPS as int) {
                assert(live_count(nodes, g, nodes.len() as int) == 0);
            }
        }
        let batched = match build_batch::<N, MAX_DEPS, CMD_BUFFER_SIZE>(
            &mut sort_iter,
            explorer.nodes,
            &failed_nodes,
            prefix,
        ) {
            Ok(b) => b,
            Err(need_bytes) => {
                lines.append("[E] Batch buffer overflow (need ");
                push_decimal(&mut lines, need_bytes);
                lines.append(" bytes)\r\n");
                let e = ExplorerError::BufferOverflow;
                proof {
                    let padded = lemma_pad_batches(
                        nodes,
                        N as int,
                        MAX_DEPS as int,
                        cap,
                        bz,
                        (found.len() - bz.len()) as nat,
                    );
                    assert(batch_oks(bz).drop_last() =~= batch_oks(batches));
                lemma_prune_stop(nodes, N as int, MAX_DEPS as int, cap, prefix, scan, found, batches, bz, padded, addr);
                    assert(prune_log(nodes, N as int, MAX_DEPS as int, cap, prefix, scan, padded, Err(e)));
                    assert(i2c.write_log() == log0 + scan + padded.flatten());
                }
                flush_lines(serial, &lines);
                return Err(e);
            },
        };
        proof {
            if faithful(nodes, g, N as int, MAX_DEPS as int) {
                law_cycle_iff_unorderable(&sort_iter);
                law_exhausted_order(&sort_iter);
            } else {
                lemma_no_live_order(nodes, g);
                assert(sort_iter.emitted() =~= Seq::<int>::empty());
            }
        }
        if sort_iter.is_cycle_detected() {
            lines.append("[E] Dependency cycle detected. Aborting.\r\n");
            proof {
                let padded = lemma_pad_batches(
                    nodes,
                    N as int,
                    MAX_DEPS as int,
                    cap,
                    bz,
                    (found.len() - bz.len()) as nat,
                );
                assert(batch_oks(bz).drop_last() =~= batch_oks(batches));
                lemma_prune_stop(nodes, N as int, MAX_DEPS as int, cap, prefix, scan, found, batches, bz, padded, addr);
                assert(prune_log(
                    nodes,
                    N as int,
                    MAX_DEPS as int,
                    cap,
                    prefix,
                    scan,
                    padded,
                    Err(ExplorerError::DependencyCycle),
                ));
                assert(i2c.write_log() == log0 + scan + padded.flatten());
            }
            flush_lines(serial, &lines);
            return Err(ExplorerError::DependencyCycle);
        }
        let ghost order = sort_iter.emitted();
        assert(kahn_order(nodes, g, order));
        let res = i2c.write(addr, batched.as_slice());
        let ghost w: Seq<WriteEntry<I2C::Error>> = seq![(addr, batched@, res)];
        let ghost b2 = batches.push(w);
        proof {
            assert(batch_shape(nodes, N as int, MAX_DEPS as int, cap, prefix, state, addr, w));
            lemma_shape_extend(nodes, N as int, MAX_DEPS as int, cap, prefix, found, batches, w);
            assert(i2c.write_log() == log0 + scan + b2.flatten());
        }
        match res {
            Ok(_) => {
                lines.append("[I] OK batched @ ");
                push_byte_hex(&mut lines, addr);
                lines.append(" (");
                push_decimal(&mut lines, batched.len());
                lines.append(" bytes)\r\n");
            },
            Err(e) => {
                lines.append("[W] Failed batched @ ");
                push_byte_hex(&mut lines, addr);
                lines.append(", pruning nodes\r\n");
                let kind = e.to_compat(Some(addr));
                if first_err.is_none() {
                    first_err = Some(kind);
                }
                let mut cmd_idx: usize = 0;
                while cmd_idx < len
                    invariant
                        cmd_idx <= len,
                        failed_nodes@ == g.union(Set::new(|i: int| 0 <= i < cmd_idx && i < 128)),
                    decreases len - cmd_idx,
                {
                    let _ = failed_nodes.set(cmd_idx);
                    proof {
                        assert(failed_nodes@ =~= g.union(
                            Set::new(|i: int| 0 <= i < cmd_idx + 1 && i < 128),
                        ));
                    }
                    cmd_idx += 1;
                }
                proof {
                    assert(failed_nodes@ =~= g.union(all_marked(len as int)));
                    assert(g.union(all_marked(len as int)) =~= all_marked(len as int));
                }
            },
        }
        proof {
            batches = b2;
        }
        global_failed_nodes = failed_nodes;
        a += 1;
    }
    proof {
        assert(batches.take(found.len() as int) =~= batches);
    }
    lines.append("[I] All valid addresses explored. Done.\r\n");
    flush_lines(serial, &lines);
    let r = match first_err {
        None => Ok(()),
        Some(k) => Err(ExplorerError::ExecutionFailed(k)),
    };
    assert(prune_log(nodes, N as int, MAX_DEPS as int, cap, prefix, scan, batches, r));
    r
}

/// One more address, with the writes `w` of the right shape for the state
/// the run is in, keeps every address's writes of the right shape.
proof fn lemma_shape_extend<E: HalErrorExt>(
    nodes: Seq<CmdNode>,
    n: int,
    max: int,
    cap: int,
    prefix: u8,
    found: Seq<u8>,
    batches: Seq<Seq<WriteEntry<E>>>,
    w: Seq<WriteEntry<E>>,
)
    requires
        batches.len() < found.len(),
        forall|i: int|
            0 <= i < batches.len() ==> #[trigger] batch_shape(
                nodes,
                n,
                max,
                cap,
                prefix,
                prune_fold(nodes, n, max, cap, batch_oks(batches.take(i))),
                found[i],
                batches[i],
            ),
        batch_shape(
            nodes,
            n,
            max,
            cap,
            prefix,
            prune_fold(nodes, n, max, cap, batch_oks(batches)),
            found[batches.len() as int],
            w,
        ),
    ensures
        forall|i: int|
            0 <= i < batches.len() + 1 ==> #[trigger] batch_shape(
                nodes,
                n,
                max,
                cap,
                prefix,
                prune_fold(nodes, n, max, cap, batch_oks(batches.push(w).take(i))),
                found[i],
                batches.push(w)[i],
            ),
        batch_oks(batches.push(w)).drop_last() == batch_oks(batches),
        batches.push(w).drop_last() == batches,
        batches.push(w).flatten() == batches.flatten() + w,
{
    let b2 = batches.push(w);
    assert(batch_oks(b2).drop_last() =~= batch_oks(batches));
    assert(b2.drop_last() =~= batches);
    batches.lemma_flatten_push(w);
    assert forall|i: int|
        0 <= i < batches.len() + 1 implies #[trigger] batch_shape(
        nodes,
        n,
        max,
        cap,
        prefix,
        prune_fold(nodes, n, max, cap, batch_oks(b2.take(i))),
        found[i],
        b2[i],
    ) by {
        if i < batches.len() {
            assert(b2.take(i) =~= batches.take(i));
            assert(b2[i] == batches[i]);
        } else {
            assert(b2.take(i) =~= batches);
        }
    }
}

/// A run stopped at the address after `batches`, padded with empty batches
/// up to every address found, is what `prune_log` asks for.
proof fn lemma_prune_stop<E: HalErrorExt>(
    nodes: Seq<CmdNode>,
    n: int,
    max: int,
    cap: int,
    prefix: u8,
    scan: Seq<WriteEntry<E>>,
    found: Seq<u8>,
    batches: Seq<Seq<WriteEntry<E>>>,
    bz: Seq<Seq<WriteEntry<E>>>,
    padded: Seq<Seq<WriteEntry<E>>>,
    addr: u8,
)
    requires
        scan_log(seq![prefix], scan, Ok::<Seq<u8>, ErrorKind>(found)),
        batches.len() < found.len(),
        addr == found[batches.len() as int],
        bz == batches.push(Seq::empty()),
        forall|i: int|
            0 <= i < batches.len() ==> #[trigger] batch_shape(
                nodes,
                n,
                max,
                cap,
                prefix,
                prune_fold(nodes, n, max, cap, batch_oks(batches.take(i))),
                found[i],
                batches[i],
            ),
        prune_fold(nodes, n, max, cap, batch_oks(batches)) is Ok,
        prune_fold(nodes, n, max, cap, batch_oks(bz)) is Err,
        padded.len() == bz.len() + (found.len() - bz.len()),
        padded.take(bz.len() as int) == bz,
        prune_fold(nodes, n, max, cap, batch_oks(padded)) == prune_fold(nodes, n, max, cap, batch_oks(bz)),
        forall|i: int|
            bz.len() <= i < padded.len() ==> (#[trigger] padded[i]).len() == 0 && prune_fold(
                nodes,
                n,
                max,
                cap,
                batch_oks(padded.take(i)),
            ) is Err,
    ensures
        forall|i: int|
            0 <= i < found.len() ==> #[trigger] batch_shape(
                nodes,
                n,
                max,
                cap,
                prefix,
                prune_fold(nodes, n, max, cap, batch_oks(padded.take(i))),
                found[i],
                padded[i],
            ),
{
    let a = batches.len() as int;
    assert(batch_oks(bz).drop_last() =~= batch_oks(batches));
    assert forall|k: int| 0 <= k <= a implies #[trigger] padded[k] == bz[k] by {
        assert(padded.take(a + 1)[k] == bz[k]);
    }
    assert forall|k: int| 0 <= k < a implies #[trigger] bz[k] == batches[k] by {}
    assert forall|i: int| 0 <= i <= a implies #[trigger] padded.take(i) == batches.take(i) by {
        assert forall|k: int| 0 <= k < i implies padded.take(i)[k] == batches.take(i)[k] by {
            assert(padded[k] == bz[k]);
            assert(bz[k] == batches[k]);
        }
        assert(padded.take(i) =~= batches.take(i));
    }
    assert(batches.take(a) =~= batches);
    assert forall|i: int|
        0 <= i < found.len() implies #[trigger] batch_shape(
        nodes,
        n,
        max,
        cap,
        prefix,
        prune_fold(nodes, n, max, cap, batch_oks(padded.take(i))),
        found[i],
        padded[i],
    ) by {
        if i < a {
            assert(padded.take(i) == batches.take(i));
            assert(padded[i] == batches[i]);
        } else if i == a {
            assert(padded.take(i) == batches);
            assert(padded[i] == bz[i]);
        }
    }
}

/// Some reason, among the first `i` nodes, why the live part of the graph
/// cannot be encoded faithfully with `len` nodes: a live node with more than
/// 255 dependencies, a dependency index of `len` or more, or more than 65535
/// dependencies in all.
pub open spec fn unfaithful_before(nodes: Seq<CmdNode>, failed: Set<int>, i: int, len: int) -> bool {
    ||| exists|k: int| 0 <= k < i && live(nodes, failed, k) && (#[trigger] nodes[k]).deps@.len() > 255
    ||| exists|k: int|
        0 <= k < dep_list(nodes, failed, i).len() && #[trigger] dep_list(nodes, failed, i)[k] >= len
    ||| dep_list(nodes, failed, i).len() > 65535
}

proof fn lemma_unfaithful_grows(nodes: Seq<CmdNode>, failed: Set<int>, i: int, len: int)
    requires
        0 <= i,
        unfaithful_before(nodes, failed, i, len),
    ensures
        unfaithful_before(nodes, failed, i + 1, len),
{
    let pre = dep_list(nodes, failed, i);
    let nxt = dep_list(nodes, failed, i + 1);
    lemma_dep_list_prefix(nodes, failed, i, i + 1);
    if exists|k: int| 0 <= k < pre.len() && #[trigger] pre[k] >= len {
        let k = choose|k: int| 0 <= k < pre.len() && #[trigger] pre[k] >= len;
        assert(nxt.subrange(0, pre.len() as int)[k] == pre[k]);
        assert(nxt[k] >= len);
    }
}

proof fn lemma_unfaithful_not_faithful(nodes: Seq<CmdNode>, failed: Set<int>, n: int, max: int)
    requires
        unfaithful_before(nodes, failed, nodes.len() as int, nodes.len() as int),
    ensures
        !faithful(nodes, failed, n, max),
{
    let len = nodes.len() as int;
    let dl = dep_list(nodes, failed, len);
    if exists|k: int| 0 <= k < len && live(nodes, failed, k) && (#[trigger] nodes[k]).deps@.len() > 255 {
        let k = choose|k: int| 0 <= k < len && live(nodes, failed, k) && (#[trigger] nodes[k]).deps@.len() > 255;
        assert(live(nodes, failed, k));
    } else if exists|k: int| 0 <= k < dl.len() && #[trigger] dl[k] >= len {
        let k = choose|k: int| 0 <= k < dl.len() && #[trigger] dl[k] >= len;
        assert(!all_below(dl, len));
    }
}

/// Whether the explorer can run its graph with `failed_nodes` marked as
/// failed: true exactly when building the iterator fails with an error found
/// before any counting (too many commands, or a dependency index out of
/// range), or no command is live, or the graph is faithfully encodable given
/// room for all its dependency entries (with less room, building the
/// iterator reports it). Graphs that fail the check only through a counter
/// that would saturate are reported as not runnable.
pub fn is_runnable<const N: usize, const MAX_DEPS: usize>(
    explorer: &Explorer<N, MAX_DEPS>,
    failed_nodes: &BitFlags,
) -> (r: bool)
    ensures
        r == (explorer.nodes@.len() > N || !deps_below(explorer.nodes@, failed_nodes@, explorer.nodes@.len() as int)
            || live_count(explorer.nodes@, failed_nodes@, explorer.nodes@.len() as int) == 0
            || faithful(
            explorer.nodes@,
            failed_nodes@,
            N as int,
            dep_list(explorer.nodes@, failed_nodes@, explorer.nodes@.len() as int).len() as int,
        )),
        r ==> runnable(explorer.nodes@, failed_nodes@, N as int, MAX_DEPS as int),
{
    let ghost nodes = explorer.nodes@;
    let ghost failed = failed_nodes@;
    let len = explorer.nodes.len();
    if len > N {
        return true;
    }
    let mut faithful_ok = true;
    let mut live_seen = false;
    let mut total: usize = 0;
    let mut i: usize = 0;
    while i < len
        invariant
            i <= len == nodes.len() <= N,
            nodes == explorer.nodes@,
            failed == failed_nodes@,
            live_seen == (live_count(nodes, failed, i as int) > 0),
            faithful_ok ==> {
                &&& total == dep_list(nodes, failed, i as int).len()
                &&& total <= 65535
                &&& all_below(dep_list(nodes, failed, i as int), len as int)
                &&& forall|k: int| 0 <= k < i && live(nodes, failed, k) ==> (#[trigger] nodes[k]).deps@.len() <= 255
            },
            !faithful_ok ==> unfaithful_before(nodes, failed, i as int, len as int),
            all_below(dep_list(nodes, failed, i as int), len as int),
        decreases len - i,
    {
        let is_failed = match failed_nodes.get(i) {
            Ok(b) => b,
            Err(_) => false,
        };
        let ghost prev = dep_list(nodes, failed, i as int);
        proof {
            crate::compat::util::law_bitflags_bounded(*failed_nodes, i as int);
        }
        proof {
            if !faithful_ok {
                lemma_unfaithful_grows(nodes, failed, i as int, len as int);
            }
        }
        if !is_failed {
            live_seen = true;
            let deps = explorer.nodes[i].deps;
            if deps.len() > 255 {
                faithful_ok = false;
                assert(live(nodes, failed, i as int));
            }
            let mut j: usize = 0;
            while j < deps.len()
                invariant
                    j <= deps@.len(),
                    nodes == explorer.nodes@,
                    failed == failed_nodes@,
                    live_seen == (live_count(nodes, failed, i + 1) > 0),
                    faithful_ok ==> {
                        &&& total == prev.len()
                        &&& total <= 65535
                        &&& all_below(prev, len as int)
                        &&& deps@.len() <= 255
                        &&& forall|k: int|
                            0 <= k < i && live(nodes, failed, k) ==> (#[trigger] nodes[k]).deps@.len() <= 255
                    },
                    deps@ == nodes[i as int].deps@,
                    !failed.contains(i as int),
                    0 <= i < len == nodes.len() <= N,
                    prev == dep_list(nodes, failed, i as int),
                    all_below(prev, len as int),
                    forall|k: int| 0 <= k < j ==> #[trigger] deps@[k] < len,
                    faithful_ok ==> forall|k: int| 0 <= k < j ==> #[trigger] deps@[k] < len,
                    !faithful_ok ==> unfaithful_before(nodes, failed, i + 1, len as int),
                decreases deps@.len() - j,
            {
                let d = deps[j];
                if d as usize >= len {
                    proof {
                        let dl = dep_list(nodes, failed, nodes.len() as int);
                        let cur = dep_list(nodes, failed, i + 1);
                        assert(cur == prev + deps@);
                        lemma_dep_list_prefix(nodes, failed, i + 1, nodes.len() as int);
                        assert(cur[prev.len() + j] == d);
                        assert(dl[prev.len() + j] == cur[prev.len() + j]);
                        assert(!deps_below(nodes, failed, len as int));
                    }
                    return true;
                }
                j += 1;
            }
            let cur_ghost = Ghost(dep_list(nodes, failed, i + 1));
            proof {
                assert(cur_ghost@ == prev + deps@);
                assert forall|k: int| 0 <= k < cur_ghost@.len() implies #[trigger] cur_ghost@[k] < len by {
                    if k >= prev.len() {
                        assert(cur_ghost@[k] == deps@[k - prev.len()]);
                    } else {
                        assert(cur_ghost@[k] == prev[k]);
                    }
                }
            }
            if faithful_ok {
                if deps.len() > 65535 - total {
                    faithful_ok = false;
                    assert(dep_list(nodes, failed, i + 1).len() > 65535);
                } else {
                    total = total + deps.len();
                    proof {
                        assert forall|k: int| 0 <= k < cur_ghost@.len() implies #[trigger] cur_ghost@[k] < len by {
                            if k >= prev.len() {
                                assert(cur_ghost@[k] == deps@[k - prev.len()]);
                            } else {
                                assert(cur_ghost@[k] == prev[k]);
                            }
                        }
                    }
                }
            }
        } else {
            proof {
                assert(dep_list(nodes, failed, i + 1) =~= prev);
            }
        }
        i += 1;
    }
    if !live_seen {
        return true;
    }
    let ghost dl = dep_list(nodes, failed, len as int);
    proof {
        assert(deps_below(nodes, failed, len as int));
        if !faithful_ok {
            lemma_unfaithful_not_faithful(nodes, failed, N as int, MAX_DEPS as int);
            lemma_unfaithful_not_faithful(nodes, failed, N as int, dl.len() as int);
        }
    }
    if faithful_ok && N <= 256 {
        proof {
            if dl.len() > MAX_DEPS {
                lemma_over_capacity(nodes, failed, N as int, MAX_DEPS as int);
            }
        }
        return true;
    }
    false
}

} // verus!
