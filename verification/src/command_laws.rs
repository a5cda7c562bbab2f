//! What the commands take from their arguments, and which frames they read.
#[allow(unused_imports)]
use crate::bench_command::{
    begins_with, bench_options_of, bench_step, bench_steps, count_of, durability_of, salvage_steps,
    without_fronts, BenchCommand, BenchModel,
};
#[allow(unused_imports)]
use crate::reconcile_command::{batch_counted, hex_decoded, hex_pairs, hex_value, FrameTotals};
#[allow(unused_imports)]
use crate::sd_command::{
    control_of, control_target, serve_defaults, serve_options_of, serve_step, serve_steps,
    verify_defaults, verify_options_of, verify_step, verify_steps, FaultModel, ServeModel,
    VerifyModel,
};
#[allow(unused_imports)]
use crate::shadow_protocol::BatchModel;
#[allow(unused_imports)]
use crate::shadow_reconcile::ShadowReconcileLimits;
#[allow(unused_imports)]
use crate::storage::Durability;
#[allow(unused_imports)]
use crate::text_scan::{digits_value, small_value, trimmed, unsigned_value, IntegerFault};
use vstd::prelude::*;
use vstd::string::*;
#[allow(unused_imports)]
use vstd::utf8::*;

verus! {

// Options come as pairs of a flag and its value.

/// Whether pair `j` of some arguments has a flag.
pub open spec fn names(arguments: Seq<Seq<char>>, j: int, flag: Seq<char>) -> bool {
    arguments[2 * j] == flag
}

/// Whether pair `k` is the last with a flag.
pub open spec fn last_named(arguments: Seq<Seq<char>>, flag: Seq<char>, k: int) -> bool {
    &&& 0 <= k
    &&& 2 * k + 1 < arguments.len()
    &&& names(arguments, k, flag)
    &&& forall|j: int|
        k < j && 2 * j + 1 < arguments.len() ==> !(#[trigger] names(arguments, j, flag))
}

/// Whether no pair has a flag.
pub open spec fn never_named(arguments: Seq<Seq<char>>, flag: Seq<char>) -> bool {
    forall|j: int| 0 <= j && 2 * j + 1 < arguments.len() ==> !(#[trigger] names(arguments, j, flag))
}

proof fn lemma_named(arguments: Seq<Seq<char>>, flag: Seq<char>, k: int)
    requires
        arguments.len() >= 2,
    ensures
        last_named(arguments, flag, k) && k > 0 ==> last_named(arguments.skip(2), flag, k - 1),
        last_named(arguments, flag, 0) ==> arguments[0] == flag && never_named(
            arguments.skip(2),
            flag,
        ),
        never_named(arguments, flag) <==> arguments[0] != flag && never_named(
            arguments.skip(2),
            flag,
        ),
{
    let rest = arguments.skip(2);
    assert forall|j: int| 0 <= j && 2 * j + 1 < rest.len() implies (#[trigger] names(
        rest,
        j,
        flag,
    ) <==> names(arguments, j + 1, flag)) by {
        assert(rest[2 * j] == arguments[2 * (j + 1)]);
    }
    if last_named(arguments, flag, k) && k > 0 {
        assert(names(rest, k - 1, flag)) by {
            assert(rest[2 * (k - 1)] == arguments[2 * k]);
        }
    }
    if never_named(arguments, flag) {
        assert(!names(arguments, 0, flag));
    }
    if arguments[0] != flag && never_named(rest, flag) {
        assert forall|j: int| 0 <= j && 2 * j + 1 < arguments.len() implies !(#[trigger] names(
            arguments,
            j,
            flag,
        )) by {
            if j > 0 {
                assert(rest[2 * (j - 1)] == arguments[2 * j]);
                assert(!names(rest, j - 1, flag));
            }
        }
    }
}

proof fn lemma_last_named(arguments: Seq<Seq<char>>, flag: Seq<char>) -> (k: int)
    requires
        !never_named(arguments, flag),
    ensures
        last_named(arguments, flag, k),
{
    let j = choose|j: int|
        0 <= j && 2 * j + 1 < arguments.len() && #[trigger] names(arguments, j, flag);
    lemma_last_from(arguments, flag, j)
}

proof fn lemma_last_from(arguments: Seq<Seq<char>>, flag: Seq<char>, j: int) -> (k: int)
    requires
        0 <= j && 2 * j + 1 < arguments.len(),
        names(arguments, j, flag),
    ensures
        last_named(arguments, flag, k),
    decreases arguments.len() - j,
{
    if exists|i: int| j < i && 2 * i + 1 < arguments.len() && #[trigger] names(arguments, i, flag) {
        let i = choose|i: int|
            j < i && 2 * i + 1 < arguments.len() && #[trigger] names(arguments, i, flag);
        lemma_last_from(arguments, flag, i)
    } else {
        j
    }
}

/// Whether a flag and its value can be taken by `serve`.
pub open spec fn serve_takes(flag: Seq<char>, value: Seq<char>) -> bool {
    ||| flag == "--config"@
    ||| flag == "--backing"@
    ||| flag == "--listen"@
    ||| flag == "--control"@
    ||| flag == "--seed"@ && unsigned_value(value) is Ok
    ||| flag == "--metrics"@
    ||| flag == "--power-loss-after-ops"@ && unsigned_value(value) is Ok
}

/// Whether pair `j` of some arguments can be taken by `serve`.
pub open spec fn serve_takes_pair(arguments: Seq<Seq<char>>, j: int) -> bool {
    serve_takes(arguments[2 * j], arguments[2 * j + 1])
}

proof fn lemma_serve_flags()
    ensures
        "--config"@ != "--backing"@,
        "--config"@ != "--listen"@,
        "--config"@ != "--control"@,
        "--config"@ != "--seed"@,
        "--config"@ != "--metrics"@,
        "--config"@ != "--power-loss-after-ops"@,
        "--backing"@ != "--listen"@,
        "--backing"@ != "--control"@,
        "--backing"@ != "--seed"@,
        "--backing"@ != "--metrics"@,
        "--backing"@ != "--power-loss-after-ops"@,
        "--listen"@ != "--control"@,
        "--listen"@ != "--seed"@,
        "--listen"@ != "--metrics"@,
        "--listen"@ != "--power-loss-after-ops"@,
        "--control"@ != "--seed"@,
        "--control"@ != "--metrics"@,
        "--control"@ != "--power-loss-after-ops"@,
        "--seed"@ != "--metrics"@,
        "--seed"@ != "--power-loss-after-ops"@,
        "--metrics"@ != "--power-loss-after-ops"@,
{
    reveal_strlit("--config");
    reveal_strlit("--backing");
    reveal_strlit("--listen");
    reveal_strlit("--control");
    reveal_strlit("--seed");
    reveal_strlit("--metrics");
    reveal_strlit("--power-loss-after-ops");
    assert("--config"@.len() != "--backing"@.len());
    assert("--config"@[2] != "--listen"@[2]);
    assert("--config"@.len() != "--control"@.len());
    assert("--config"@.len() != "--seed"@.len());
    assert("--config"@.len() != "--metrics"@.len());
    assert("--config"@.len() != "--power-loss-after-ops"@.len());
    assert("--backing"@.len() != "--listen"@.len());
    assert("--backing"@[2] != "--control"@[2]);
    assert("--backing"@.len() != "--seed"@.len());
    assert("--backing"@[2] != "--metrics"@[2]);
    assert("--backing"@.len() != "--power-loss-after-ops"@.len());
    assert("--listen"@.len() != "--control"@.len());
    assert("--listen"@.len() != "--seed"@.len());
    assert("--listen"@.len() != "--metrics"@.len());
    assert("--listen"@.len() != "--power-loss-after-ops"@.len());
    assert("--control"@.len() != "--seed"@.len());
    assert("--control"@[2] != "--metrics"@[2]);
    assert("--control"@.len() != "--power-loss-after-ops"@.len());
    assert("--seed"@.len() != "--metrics"@.len());
    assert("--seed"@.len() != "--power-loss-after-ops"@.len());
    assert("--metrics"@.len() != "--power-loss-after-ops"@.len());
}

proof fn lemma_serve_pairs(options: ServeModel, arguments: Seq<Seq<char>>)
    ensures
        serve_steps(options, arguments) is Ok <==> arguments.len() % 2 == 0 && (forall|j: int|
            0 <= j && 2 * j + 1 < arguments.len() ==> #[trigger] serve_takes_pair(arguments, j)),
    decreases arguments.len(),
{
    lemma_serve_flags();
    if arguments.len() >= 2 {
        let rest = arguments.skip(2);
        let step = serve_step(options, arguments[0], arguments[1]);
        assert(step is Ok <==> serve_takes(arguments[0], arguments[1]));
        assert forall|j: int| 0 <= j && 2 * j + 1 < rest.len() implies (#[trigger] serve_takes_pair(
            rest,
            j,
        ) <==> serve_takes_pair(arguments, j + 1)) by {
            assert(rest[2 * j] == arguments[2 * (j + 1)]);
            assert(rest[2 * j + 1] == arguments[2 * (j + 1) + 1]);
        }
        if step is Ok {
            lemma_serve_pairs(step->Ok_0, rest);
        }
        if forall|j: int|
            0 <= j && 2 * j + 1 < arguments.len() ==> #[trigger] serve_takes_pair(arguments, j) {
            assert(serve_takes_pair(arguments, 0));
            assert forall|j: int| 0 <= j && 2 * j + 1 < rest.len()
                implies #[trigger] serve_takes_pair(rest, j) by {
                assert(serve_takes_pair(arguments, j + 1));
            }
        }
        if serve_takes(arguments[0], arguments[1]) && (forall|j: int|
            0 <= j && 2 * j + 1 < rest.len() ==> #[trigger] serve_takes_pair(rest, j)) {
            assert forall|j: int| 0 <= j && 2 * j + 1 < arguments.len()
                implies #[trigger] serve_takes_pair(arguments, j) by {
                if j > 0 {
                    assert(serve_takes_pair(rest, j - 1));
                }
            }
        }
    }
}

#[verifier::spinoff_prover]
proof fn lemma_serve_values(options: ServeModel, arguments: Seq<Seq<char>>, k: int, o: ServeModel)
    requires
        serve_steps(options, arguments) == Ok::<ServeModel, FaultModel>(o),
    ensures
        last_named(arguments, "--config"@, k) ==> o.config == Some(arguments[2 * k + 1]),
        never_named(arguments, "--config"@) ==> o.config == options.config,
        last_named(arguments, "--backing"@, k) ==> o.backing == Some(arguments[2 * k + 1]),
        never_named(arguments, "--backing"@) ==> o.backing == options.backing,
        last_named(arguments, "--listen"@, k) ==> o.listen == arguments[2 * k + 1],
        never_named(arguments, "--listen"@) ==> o.listen == options.listen,
        last_named(arguments, "--control"@, k) ==> o.control == arguments[2 * k + 1],
        never_named(arguments, "--control"@) ==> o.control == options.control,
        last_named(arguments, "--seed"@, k)
            ==> unsigned_value(arguments[2 * k + 1]) == Ok::<nat, IntegerFault>(o.seed as nat),
        never_named(arguments, "--seed"@) ==> o.seed == options.seed,
        last_named(arguments, "--metrics"@, k) ==> o.metrics == Some(arguments[2 * k + 1]),
        never_named(arguments, "--metrics"@) ==> o.metrics == options.metrics,
        last_named(arguments, "--power-loss-after-ops"@, k)
            ==> (o.power_loss_after_ops matches Some(n)
            && unsigned_value(arguments[2 * k + 1]) == Ok::<nat, IntegerFault>(n as nat)),
        never_named(arguments, "--power-loss-after-ops"@)
            ==> o.power_loss_after_ops == options.power_loss_after_ops,
    decreases arguments.len(),
{
    lemma_serve_flags();
    if arguments.len() >= 2 {
        let rest = arguments.skip(2);
        let next = serve_step(options, arguments[0], arguments[1])->Ok_0;
        lemma_serve_values(next, rest, k - 1, o);
        if k > 0 && 2 * k + 1 < arguments.len() {
            assert(rest[2 * (k - 1) + 1] == arguments[2 * k + 1]);
        }
        lemma_named(arguments, "--config"@, k);
        lemma_named(arguments, "--backing"@, k);
        lemma_named(arguments, "--listen"@, k);
        lemma_named(arguments, "--control"@, k);
        lemma_named(arguments, "--seed"@, k);
        lemma_named(arguments, "--metrics"@, k);
        lemma_named(arguments, "--power-loss-after-ops"@, k);
        lemma_unsigned_fits(arguments[1]);
        lemma_small_fits(arguments[1]);
    }
}

/// The card is served as the last of each option says, and as usual where none says it.
pub proof fn serve_options_hold_what_was_said_last(arguments: Seq<Seq<char>>, k: int, o: ServeModel)
    requires
        serve_options_of(arguments) == Ok::<ServeModel, FaultModel>(o),
    ensures
        last_named(arguments, "--config"@, k) ==> o.config == Some(arguments[2 * k + 1]),
        last_named(arguments, "--backing"@, k) ==> o.backing == Some(arguments[2 * k + 1]),
        last_named(arguments, "--listen"@, k) ==> o.listen == arguments[2 * k + 1],
        never_named(arguments, "--listen"@) ==> o.listen == "127.0.0.1:10809"@,
        last_named(arguments, "--control"@, k) ==> o.control == arguments[2 * k + 1],
        never_named(arguments, "--control"@) ==> o.control == "127.0.0.1:10810"@,
        last_named(arguments, "--seed"@, k)
            ==> unsigned_value(arguments[2 * k + 1]) == Ok::<nat, IntegerFault>(o.seed as nat),
        never_named(arguments, "--seed"@) ==> o.seed == 42,
        last_named(arguments, "--metrics"@, k) ==> o.metrics == Some(arguments[2 * k + 1]),
        never_named(arguments, "--metrics"@) ==> o.metrics is None,
        last_named(arguments, "--power-loss-after-ops"@, k)
            ==> (o.power_loss_after_ops matches Some(n)
            && unsigned_value(arguments[2 * k + 1]) == Ok::<nat, IntegerFault>(n as nat)),
        never_named(arguments, "--power-loss-after-ops"@) ==> o.power_loss_after_ops is None,
{
    lemma_serve_values(serve_defaults(), arguments, k, o);
}

/// Options to serve are taken exactly where each has a value that can be read, and the profile
/// and the backing file are named.
pub proof fn serve_options_are_taken(arguments: Seq<Seq<char>>)
    ensures
        serve_options_of(arguments) is Ok <==> {
            &&& arguments.len() % 2 == 0
            &&& forall|j: int|
                0 <= j && 2 * j + 1 < arguments.len() ==> #[trigger] serve_takes_pair(arguments, j)
            &&& !never_named(arguments, "--config"@)
            &&& !never_named(arguments, "--backing"@)
        },
{
    lemma_serve_pairs(serve_defaults(), arguments);
    if serve_steps(serve_defaults(), arguments) is Ok {
        let o = serve_steps(serve_defaults(), arguments)->Ok_0;
        lemma_serve_values(serve_defaults(), arguments, 0, o);
        if !never_named(arguments, "--config"@) {
            let k = lemma_last_named(arguments, "--config"@);
            lemma_serve_values(serve_defaults(), arguments, k, o);
        }
        if !never_named(arguments, "--backing"@) {
            let k = lemma_last_named(arguments, "--backing"@);
            lemma_serve_values(serve_defaults(), arguments, k, o);
        }
    }
}

/// Whether a flag and its value can be taken by `verify`.
pub open spec fn verify_takes(flag: Seq<char>, value: Seq<char>) -> bool {
    ||| flag == "--emulator"@
    ||| flag == "--check"@
    ||| flag == "--inspect"@
    ||| flag == "--output"@
    ||| flag == "--expected-points"@ && unsigned_value(value) is Ok
    ||| flag == "--expected-commits"@ && unsigned_value(value) is Ok
    ||| flag == "--writer-exit"@ && small_value(value) is Ok
    ||| flag == "--writer-signal"@ && small_value(value) is Ok
    ||| flag == "--checksum-ok"@ && (value == "true"@ || value == "false"@)
}

/// Whether pair `j` of some arguments can be taken by `verify`.
pub open spec fn verify_takes_pair(arguments: Seq<Seq<char>>, j: int) -> bool {
    verify_takes(arguments[2 * j], arguments[2 * j + 1])
}

proof fn lemma_verify_flags()
    ensures
        "--emulator"@ != "--check"@,
        "--emulator"@ != "--inspect"@,
        "--emulator"@ != "--output"@,
        "--emulator"@ != "--expected-points"@,
        "--emulator"@ != "--expected-commits"@,
        "--emulator"@ != "--writer-exit"@,
        "--emulator"@ != "--writer-signal"@,
        "--emulator"@ != "--checksum-ok"@,
        "--check"@ != "--inspect"@,
        "--check"@ != "--output"@,
        "--check"@ != "--expected-points"@,
        "--check"@ != "--expected-commits"@,
        "--check"@ != "--writer-exit"@,
        "--check"@ != "--writer-signal"@,
        "--check"@ != "--checksum-ok"@,
        "--inspect"@ != "--output"@,
        "--inspect"@ != "--expected-points"@,
        "--inspect"@ != "--expected-commits"@,
        "--inspect"@ != "--writer-exit"@,
        "--inspect"@ != "--writer-signal"@,
        "--inspect"@ != "--checksum-ok"@,
        "--output"@ != "--expected-points"@,
        "--output"@ != "--expected-commits"@,
        "--output"@ != "--writer-exit"@,
        "--output"@ != "--writer-signal"@,
        "--output"@ != "--checksum-ok"@,
        "--expected-points"@ != "--expected-commits"@,
        "--expected-points"@ != "--writer-exit"@,
        "--expected-points"@ != "--writer-signal"@,
        "--expected-points"@ != "--checksum-ok"@,
        "--expected-commits"@ != "--writer-exit"@,
        "--expected-commits"@ != "--writer-signal"@,
        "--expected-commits"@ != "--checksum-ok"@,
        "--writer-exit"@ != "--writer-signal"@,
        "--writer-exit"@ != "--checksum-ok"@,
        "--writer-signal"@ != "--checksum-ok"@,
{
    reveal_strlit("--emulator");
    reveal_strlit("--check");
    reveal_strlit("--inspect");
    reveal_strlit("--output");
    reveal_strlit("--expected-points");
    reveal_strlit("--expected-commits");
    reveal_strlit("--writer-exit");
    reveal_strlit("--writer-signal");
    reveal_strlit("--checksum-ok");
    assert("--emulator"@.len() != "--check"@.len());
    assert("--emulator"@.len() != "--inspect"@.len());
    assert("--emulator"@.len() != "--output"@.len());
    assert("--emulator"@.len() != "--expected-points"@.len());
    assert("--emulator"@.len() != "--expected-commits"@.len());
    assert("--emulator"@.len() != "--writer-exit"@.len());
    assert("--emulator"@.len() != "--writer-signal"@.len());
    assert("--emulator"@.len() != "--checksum-ok"@.len());
    assert("--check"@.len() != "--inspect"@.len());
    assert("--check"@.len() != "--output"@.len());
    assert("--check"@.len() != "--expected-points"@.len());
    assert("--check"@.len() != "--expected-commits"@.len());
    assert("--check"@.len() != "--writer-exit"@.len());
    assert("--check"@.len() != "--writer-signal"@.len());
    assert("--check"@.len() != "--checksum-ok"@.len());
    assert("--inspect"@.len() != "--output"@.len());
    assert("--inspect"@.len() != "--expected-points"@.len());
    assert("--inspect"@.len() != "--expected-commits"@.len());
    assert("--inspect"@.len() != "--writer-exit"@.len());
    assert("--inspect"@.len() != "--writer-signal"@.len());
    assert("--inspect"@.len() != "--checksum-ok"@.len());
    assert("--output"@.len() != "--expected-points"@.len());
    assert("--output"@.len() != "--expected-commits"@.len());
    assert("--output"@.len() != "--writer-exit"@.len());
    assert("--output"@.len() != "--writer-signal"@.len());
    assert("--output"@.len() != "--checksum-ok"@.len());
    assert("--expected-points"@.len() != "--expected-commits"@.len());
    assert("--expected-points"@.len() != "--writer-exit"@.len());
    assert("--expected-points"@.len() != "--writer-signal"@.len());
    assert("--expected-points"@.len() != "--checksum-ok"@.len());
    assert("--expected-commits"@.len() != "--writer-exit"@.len());
    assert("--expected-commits"@.len() != "--writer-signal"@.len());
    assert("--expected-commits"@.len() != "--checksum-ok"@.len());
    assert("--writer-exit"@.len() != "--writer-signal"@.len());
    assert("--writer-exit"@[2] != "--checksum-ok"@[2]);
    assert("--writer-signal"@.len() != "--checksum-ok"@.len());
}

proof fn lemma_verify_pairs(options: VerifyModel, arguments: Seq<Seq<char>>)
    ensures
        verify_steps(options, arguments) is Ok <==> arguments.len() % 2 == 0 && (forall|j: int|
            0 <= j && 2 * j + 1 < arguments.len() ==> #[trigger] verify_takes_pair(arguments, j)),
    decreases arguments.len(),
{
    lemma_verify_flags();
    if arguments.len() >= 2 {
        let rest = arguments.skip(2);
        let step = verify_step(options, arguments[0], arguments[1]);
        assert(step is Ok <==> verify_takes(arguments[0], arguments[1]));
        assert forall|j: int| 0 <= j && 2 * j + 1 < rest.len() implies (#[trigger] verify_takes_pair(
            rest,
            j,
        ) <==> verify_takes_pair(arguments, j + 1)) by {
            assert(rest[2 * j] == arguments[2 * (j + 1)]);
            assert(rest[2 * j + 1] == arguments[2 * (j + 1) + 1]);
        }
        if step is Ok {
            lemma_verify_pairs(step->Ok_0, rest);
        }
        if forall|j: int|
            0 <= j && 2 * j + 1 < arguments.len() ==> #[trigger] verify_takes_pair(arguments, j) {
            assert(verify_takes_pair(arguments, 0));
            assert forall|j: int| 0 <= j && 2 * j + 1 < rest.len()
                implies #[trigger] verify_takes_pair(rest, j) by {
                assert(verify_takes_pair(arguments, j + 1));
            }
        }
        if verify_takes(arguments[0], arguments[1]) && (forall|j: int|
            0 <= j && 2 * j + 1 < rest.len() ==> #[trigger] verify_takes_pair(rest, j)) {
            assert forall|j: int| 0 <= j && 2 * j + 1 < arguments.len()
                implies #[trigger] verify_takes_pair(arguments, j) by {
                if j > 0 {
                    assert(verify_takes_pair(rest, j - 1));
                }
            }
        }
    }
}

#[verifier::spinoff_prover]
proof fn lemma_verify_values(options: VerifyModel, arguments: Seq<Seq<char>>, k: int, o: VerifyModel)
    requires
        verify_steps(options, arguments) == Ok::<VerifyModel, FaultModel>(o),
    ensures
        last_named(arguments, "--emulator"@, k) ==> o.emulator == Some(arguments[2 * k + 1]),
        never_named(arguments, "--emulator"@) ==> o.emulator == options.emulator,
        last_named(arguments, "--check"@, k) ==> o.check == Some(arguments[2 * k + 1]),
        never_named(arguments, "--check"@) ==> o.check == options.check,
        last_named(arguments, "--inspect"@, k) ==> o.inspect == Some(arguments[2 * k + 1]),
        never_named(arguments, "--inspect"@) ==> o.inspect == options.inspect,
        last_named(arguments, "--output"@, k) ==> o.output == Some(arguments[2 * k + 1]),
        never_named(arguments, "--output"@) ==> o.output == options.output,
        last_named(arguments, "--expected-points"@, k)
            ==> (o.expected_points matches Some(n)
            && unsigned_value(arguments[2 * k + 1]) == Ok::<nat, IntegerFault>(n as nat)),
        never_named(arguments, "--expected-points"@) ==> o.expected_points == options.expected_points,
        last_named(arguments, "--expected-commits"@, k)
            ==> (o.expected_commits matches Some(n)
            && unsigned_value(arguments[2 * k + 1]) == Ok::<nat, IntegerFault>(n as nat)),
        never_named(arguments, "--expected-commits"@)
            ==> o.expected_commits == options.expected_commits,
        last_named(arguments, "--writer-exit"@, k)
            ==> (o.writer_exit matches Some(n)
            && small_value(arguments[2 * k + 1]) == Ok::<int, IntegerFault>(n as int)),
        never_named(arguments, "--writer-exit"@) ==> o.writer_exit == options.writer_exit,
        last_named(arguments, "--writer-signal"@, k)
            ==> (o.writer_signal matches Some(n)
            && small_value(arguments[2 * k + 1]) == Ok::<int, IntegerFault>(n as int)),
        never_named(arguments, "--writer-signal"@) ==> o.writer_signal == options.writer_signal,
        last_named(arguments, "--checksum-ok"@, k)
            ==> (o.checksum_ok matches Some(b) && (b <==> arguments[2 * k + 1] == "true"@)),
        never_named(arguments, "--checksum-ok"@) ==> o.checksum_ok == options.checksum_ok,
    decreases arguments.len(),
{
    lemma_verify_flags();
    if arguments.len() >= 2 {
        let rest = arguments.skip(2);
        let next = verify_step(options, arguments[0], arguments[1])->Ok_0;
        lemma_verify_values(next, rest, k - 1, o);
        if k > 0 && 2 * k + 1 < arguments.len() {
            assert(rest[2 * (k - 1) + 1] == arguments[2 * k + 1]);
        }
        lemma_named(arguments, "--emulator"@, k);
        lemma_named(arguments, "--check"@, k);
        lemma_named(arguments, "--inspect"@, k);
        lemma_named(arguments, "--output"@, k);
        lemma_named(arguments, "--expected-points"@, k);
        lemma_named(arguments, "--expected-commits"@, k);
        lemma_named(arguments, "--writer-exit"@, k);
        lemma_named(arguments, "--writer-signal"@, k);
        lemma_named(arguments, "--checksum-ok"@, k);
        lemma_unsigned_fits(arguments[1]);
        lemma_small_fits(arguments[1]);
    }
}

/// A run is verified against what the last of each option says.
pub proof fn verify_options_hold_what_was_said_last(arguments: Seq<Seq<char>>, k: int, o: VerifyModel)
    requires
        verify_options_of(arguments) == Ok::<VerifyModel, FaultModel>(o),
    ensures
        last_named(arguments, "--emulator"@, k) ==> o.emulator == Some(arguments[2 * k + 1]),
        last_named(arguments, "--check"@, k) ==> o.check == Some(arguments[2 * k + 1]),
        last_named(arguments, "--inspect"@, k) ==> o.inspect == Some(arguments[2 * k + 1]),
        last_named(arguments, "--output"@, k) ==> o.output == Some(arguments[2 * k + 1]),
        never_named(arguments, "--output"@) ==> o.output is None,
        last_named(arguments, "--expected-points"@, k)
            ==> (o.expected_points matches Some(n)
            && unsigned_value(arguments[2 * k + 1]) == Ok::<nat, IntegerFault>(n as nat)),
        last_named(arguments, "--expected-commits"@, k)
            ==> (o.expected_commits matches Some(n)
            && unsigned_value(arguments[2 * k + 1]) == Ok::<nat, IntegerFault>(n as nat)),
        last_named(arguments, "--writer-exit"@, k)
            ==> (o.writer_exit matches Some(n)
            && small_value(arguments[2 * k + 1]) == Ok::<int, IntegerFault>(n as int)),
        never_named(arguments, "--writer-exit"@) ==> o.writer_exit is None,
        last_named(arguments, "--writer-signal"@, k)
            ==> (o.writer_signal matches Some(n)
            && small_value(arguments[2 * k + 1]) == Ok::<int, IntegerFault>(n as int)),
        never_named(arguments, "--writer-signal"@) ==> o.writer_signal is None,
        last_named(arguments, "--checksum-ok"@, k)
            ==> (o.checksum_ok matches Some(b) && (b <==> arguments[2 * k + 1] == "true"@)),
        never_named(arguments, "--checksum-ok"@) ==> o.checksum_ok is None,
{
    lemma_verify_values(verify_defaults(), arguments, k, o);
}

/// Options to verify are taken exactly where each has a value that can be read, and the three
/// files and what is expected are named.
pub proof fn verify_options_are_taken(arguments: Seq<Seq<char>>)
    ensures
        verify_options_of(arguments) is Ok <==> {
            &&& arguments.len() % 2 == 0
            &&& forall|j: int|
                0 <= j && 2 * j + 1 < arguments.len() ==> #[trigger] verify_takes_pair(arguments, j)
            &&& !never_named(arguments, "--emulator"@)
            &&& !never_named(arguments, "--check"@)
            &&& !never_named(arguments, "--inspect"@)
            &&& !never_named(arguments, "--expected-points"@)
            &&& !never_named(arguments, "--expected-commits"@)
        },
{
    lemma_verify_pairs(verify_defaults(), arguments);
    if verify_steps(verify_defaults(), arguments) is Ok {
        let o = verify_steps(verify_defaults(), arguments)->Ok_0;
        lemma_verify_values(verify_defaults(), arguments, 0, o);
        if !never_named(arguments, "--emulator"@) {
            let k = lemma_last_named(arguments, "--emulator"@);
            lemma_verify_values(verify_defaults(), arguments, k, o);
        }
        if !never_named(arguments, "--check"@) {
            let k = lemma_last_named(arguments, "--check"@);
            lemma_verify_values(verify_defaults(), arguments, k, o);
        }
        if !never_named(arguments, "--inspect"@) {
            let k = lemma_last_named(arguments, "--inspect"@);
            lemma_verify_values(verify_defaults(), arguments, k, o);
        }
        if !never_named(arguments, "--expected-points"@) {
            let k = lemma_last_named(arguments, "--expected-points"@);
            lemma_verify_values(verify_defaults(), arguments, k, o);
        }
        if !never_named(arguments, "--expected-commits"@) {
            let k = lemma_last_named(arguments, "--expected-commits"@);
            lemma_verify_values(verify_defaults(), arguments, k, o);
        }
    }
}

proof fn lemma_digits_fit(digits: Seq<char>, limit: nat, overflow: IntegerFault)
    ensures
        digits_value(digits, limit, overflow) matches Ok(n) ==> n <= limit,
    decreases digits.len(),
{
    if digits.len() > 0 {
        lemma_digits_fit(digits.drop_last(), limit, overflow);
    }
}

proof fn lemma_unsigned_fits(text: Seq<char>)
    ensures
        unsigned_value(text) matches Ok(n) ==> n <= u64::MAX,
{
    lemma_digits_fit(text, u64::MAX as nat, IntegerFault::PosOverflow);
    lemma_digits_fit(text.skip(1), u64::MAX as nat, IntegerFault::PosOverflow);
}

proof fn lemma_small_fits(text: Seq<char>)
    ensures
        small_value(text) matches Ok(n) ==> i32::MIN <= n <= i32::MAX,
{
    lemma_digits_fit(text, i32::MAX as nat, IntegerFault::PosOverflow);
    lemma_digits_fit(text.skip(1), i32::MAX as nat, IntegerFault::PosOverflow);
    lemma_digits_fit(text.skip(1), 0x8000_0000, IntegerFault::NegOverflow);
}

// The control port.

/// Each command of the control port has one word, and other words stand for none.
pub proof fn control_commands_have_one_word(text: Seq<char>)
    ensures
        control_of(text) is Status <==> text == "status"@,
        control_of(text) is PowerLoss <==> text == "power-loss"@,
        control_of(text) is Reset <==> text == "reset"@,
        control_of(text) is Detach <==> text == "detach"@,
        control_of(text) is ReadOnly <==> text == "read-only"@,
        control_of(text) is ReadWrite <==> text == "read-write"@,
        control_of(text) is Flush <==> text == "flush"@,
        control_of(text) is Shutdown <==> text == "shutdown"@,
{
    reveal_strlit("status");
    reveal_strlit("power-loss");
    reveal_strlit("reset");
    reveal_strlit("detach");
    reveal_strlit("read-only");
    reveal_strlit("read-write");
    reveal_strlit("flush");
    reveal_strlit("shutdown");
    assert("status"@[0] == 's' && "detach"@[0] == 'd');
    assert("power-loss"@[0] == 'p' && "read-write"@[0] == 'r');
    assert("reset"@[0] == 'r' && "flush"@[0] == 'f');
    assert("read-only"@.len() == 9 && "shutdown"@.len() == 8);
    assert("status"@.len() == 6 && "detach"@.len() == 6);
    assert("power-loss"@.len() == 10 && "read-write"@.len() == 10);
    assert("reset"@.len() == 5 && "flush"@.len() == 5);
}

/// A command goes where `--control` says, and to the usual address otherwise.
pub proof fn commands_go_where_they_are_sent(arguments: Seq<Seq<char>>)
    ensures
        control_target(arguments) is Some <==> arguments.len() == 1 || (arguments.len() == 3
            && arguments[0] == "--control"@),
        control_target(arguments) matches Some(target) ==> target.1 == arguments.last(),
        arguments.len() == 1 ==> control_target(arguments)->Some_0.0 == "127.0.0.1:10810"@,
        arguments.len() == 3 && arguments[0] == "--control"@ ==> control_target(
            arguments,
        )->Some_0.0 == arguments[1],
{
}

// Benchmarks.

/// Whether a flag and its value can be taken by a benchmark.
pub open spec fn bench_takes(command: BenchCommand, flag: Seq<char>, value: Seq<char>) -> bool {
    ||| flag == "--batch-rows"@ && command is TsbsIot && count_of(value) is Some
    ||| flag == "--batch-points"@ && !(command is TsbsIot) && count_of(value) is Some
    ||| flag == "--ack-log"@ && command is RealFixture
    ||| flag == "--durability"@ && durability_of(command, value) is Ok
}

/// Whether pair `j` of some arguments can be taken by a benchmark.
pub open spec fn bench_takes_pair(
    command: BenchCommand,
    arguments: Seq<Seq<char>>,
    j: int,
) -> bool {
    bench_takes(command, arguments[2 * j], arguments[2 * j + 1])
}

proof fn lemma_bench_flags()
    ensures
        "--batch-rows"@ != "--batch-points"@,
        "--batch-rows"@ != "--ack-log"@,
        "--batch-rows"@ != "--durability"@,
        "--batch-points"@ != "--ack-log"@,
        "--batch-points"@ != "--durability"@,
        "--ack-log"@ != "--durability"@,
{
    reveal_strlit("--batch-rows");
    reveal_strlit("--batch-points");
    reveal_strlit("--ack-log");
    reveal_strlit("--durability");
    assert("--batch-rows"@.len() == 12 && "--batch-points"@.len() == 14);
    assert("--ack-log"@.len() == 9);
    assert("--batch-rows"@[2] == 'b' && "--durability"@[2] == 'd');
}

#[verifier::spinoff_prover]
proof fn lemma_bench_values(
    command: BenchCommand,
    options: BenchModel,
    arguments: Seq<Seq<char>>,
    k: int,
    o: BenchModel,
)
    requires
        bench_steps(command, options, arguments) == Ok::<BenchModel, Seq<char>>(o),
    ensures
        last_named(arguments, "--durability"@, k) ==> durability_of(command, arguments[2 * k + 1])
            == Ok::<Durability, Seq<char>>(o.durability),
        never_named(arguments, "--durability"@) ==> o.durability == options.durability,
        last_named(arguments, "--ack-log"@, k) ==> o.ack_log == Some(arguments[2 * k + 1]),
        never_named(arguments, "--ack-log"@) ==> o.ack_log == options.ack_log,
        last_named(arguments, "--batch-rows"@, k) && command is TsbsIot ==> count_of(
            arguments[2 * k + 1],
        ) == Some(o.batch),
        last_named(arguments, "--batch-points"@, k) && !(command is TsbsIot) ==> count_of(
            arguments[2 * k + 1],
        ) == Some(o.batch),
        never_named(arguments, "--batch-rows"@) && command is TsbsIot ==> o.batch
            == options.batch,
        never_named(arguments, "--batch-points"@) && !(command is TsbsIot) ==> o.batch
            == options.batch,
        arguments.len() % 2 == 0,
        forall|j: int|
            0 <= j && 2 * j + 1 < arguments.len()
                ==> #[trigger] bench_takes_pair(command, arguments, j),
    decreases arguments.len(),
{
    lemma_bench_flags();
    if arguments.len() >= 2 {
        let rest = arguments.skip(2);
        let next = bench_step(command, options, arguments[0], arguments[1])->Ok_0;
        lemma_bench_values(command, next, rest, k - 1, o);
        if k > 0 && 2 * k + 1 < arguments.len() {
            assert(rest[2 * (k - 1) + 1] == arguments[2 * k + 1]);
        }
        lemma_named(arguments, "--durability"@, k);
        lemma_named(arguments, "--ack-log"@, k);
        lemma_named(arguments, "--batch-rows"@, k);
        lemma_named(arguments, "--batch-points"@, k);
        assert forall|j: int| 0 <= j && 2 * j + 1 < arguments.len()
            implies #[trigger] bench_takes_pair(command, arguments, j) by {
            if j > 0 {
                assert(bench_takes_pair(command, rest, j - 1));
                assert(rest[2 * (j - 1)] == arguments[2 * j]);
                assert(rest[2 * (j - 1) + 1] == arguments[2 * j + 1]);
            }
        }
    }
}

/// A benchmark runs as the last of each option says; where none says it, it makes every
/// commit durable and puts 10,000 into one. It takes no option that it does not know, and
/// no batch that is empty or above the maximum.
pub proof fn bench_options_hold_what_was_said_last(
    command: BenchCommand,
    arguments: Seq<Seq<char>>,
    maximum: usize,
    k: int,
    o: BenchModel,
)
    requires
        bench_options_of(command, arguments, maximum) == Ok::<BenchModel, Seq<char>>(o),
    ensures
        ({
            let said = arguments.skip(2);
            &&& arguments.len() >= 2
            &&& said.len() % 2 == 0
            &&& 1 <= o.batch <= maximum
            &&& last_named(said, "--durability"@, k) ==> durability_of(command, said[2 * k + 1])
                == Ok::<Durability, Seq<char>>(o.durability)
            &&& never_named(said, "--durability"@) ==> o.durability is Always
            &&& last_named(said, "--ack-log"@, k) ==> o.ack_log == Some(said[2 * k + 1])
            &&& never_named(said, "--ack-log"@) ==> o.ack_log is None
            &&& last_named(said, "--batch-rows"@, k) && command is TsbsIot ==> count_of(
                said[2 * k + 1],
            ) == Some(o.batch)
            &&& last_named(said, "--batch-points"@, k) && !(command is TsbsIot) ==> count_of(
                said[2 * k + 1],
            ) == Some(o.batch)
            &&& never_named(said, "--batch-rows"@) && command is TsbsIot ==> o.batch == 10_000
            &&& never_named(said, "--batch-points"@) && !(command is TsbsIot) ==> o.batch
                == 10_000
            &&& forall|j: int|
                0 <= j && 2 * j + 1 < said.len() ==> #[trigger] bench_takes_pair(command, said, j)
        }),
{
    lemma_bench_values(
        command,
        BenchModel { durability: Durability::Always, batch: 10_000, ack_log: None },
        arguments.skip(2),
        k,
        o,
    );
}

proof fn lemma_bench_pairs(
    command: BenchCommand,
    options: BenchModel,
    arguments: Seq<Seq<char>>,
)
    requires
        arguments.len() % 2 == 0,
        forall|j: int|
            0 <= j && 2 * j + 1 < arguments.len() ==> #[trigger] bench_takes_pair(
                command,
                arguments,
                j,
            ),
    ensures
        bench_steps(command, options, arguments) is Ok,
    decreases arguments.len(),
{
    lemma_bench_flags();
    if arguments.len() >= 2 {
        let rest = arguments.skip(2);
        assert(bench_takes_pair(command, arguments, 0));
        let step = bench_step(command, options, arguments[0], arguments[1]);
        assert(step is Ok);
        assert forall|j: int| 0 <= j && 2 * j + 1 < rest.len() implies #[trigger] bench_takes_pair(
            command,
            rest,
            j,
        ) by {
            assert(bench_takes_pair(command, arguments, j + 1));
            assert(rest[2 * j] == arguments[2 * (j + 1)]);
            assert(rest[2 * j + 1] == arguments[2 * (j + 1) + 1]);
        }
        lemma_bench_pairs(command, step->Ok_0, rest);
    }
}

/// A benchmark is owed to arguments that name where it reads and writes and whose options
/// can all be taken, where none of them sets the batch and the usual one is allowed, or the
/// last of them sets one that is.
pub proof fn bench_options_are_taken(
    command: BenchCommand,
    arguments: Seq<Seq<char>>,
    maximum: usize,
    k: int,
)
    requires
        arguments.len() >= 2,
        arguments.len() % 2 == 0,
        forall|j: int|
            0 <= j && 2 * j + 1 < arguments.skip(2).len() ==> #[trigger] bench_takes_pair(
                command,
                arguments.skip(2),
                j,
            ),
    ensures
        ({
            let said = arguments.skip(2);
            let flag = if command is TsbsIot {
                "--batch-rows"@
            } else {
                "--batch-points"@
            };
            &&& never_named(said, flag) ==> (bench_options_of(command, arguments, maximum) is Ok
                <==> 10_000 <= maximum)
            &&& last_named(said, flag, k) ==> (bench_options_of(command, arguments, maximum) is Ok
                <==> 1 <= count_of(said[2 * k + 1])->Some_0 <= maximum)
        }),
{
    let said = arguments.skip(2);
    let start = BenchModel { durability: Durability::Always, batch: 10_000, ack_log: None };
    lemma_bench_pairs(command, start, said);
    lemma_bench_values(command, start, said, k, bench_steps(command, start, said)->Ok_0);
}

/// A durability is one of three: every commit, none, or every so many bytes above zero,
/// which a benchmark of workloads does not take.
pub proof fn durabilities_are_three(command: BenchCommand, value: Seq<char>)
    ensures
        value == "always"@ ==> durability_of(command, value) == Ok::<Durability, Seq<char>>(
            Durability::Always,
        ),
        value == "manual"@ ==> durability_of(command, value) == Ok::<Durability, Seq<char>>(
            Durability::Manual,
        ),
        durability_of(command, value) is Ok && value != "always"@ && value != "manual"@ ==> !(
        command is Ftwdb) && begins_with(value, "every-bytes:"@) && (durability_of(
            command,
            value,
        )->Ok_0 matches Durability::EveryBytes(n) && n > 0),
{
    reveal_strlit("always");
    reveal_strlit("manual");
    assert("always"@[0] == 'a' && "manual"@[0] == 'm');
    let rest = without_fronts(value, "every-bytes:"@);
    lemma_unsigned_fits(rest);
}

// Salvage.

/// Salvage takes the arguments that do not start with two dashes as places, in their order,
/// and drops orphans exactly where it is told to. It takes no other option.
pub proof fn salvage_takes_places(arguments: Seq<Seq<char>>)
    ensures
        salvage_steps(arguments) is Ok <==> forall|i: int|
            0 <= i < arguments.len() ==> !begins_with(#[trigger] arguments[i], "--"@)
                || arguments[i] == "--drop-orphan-segments"@,
        salvage_steps(arguments) matches Ok(taken) ==> {
            &&& taken.0 == arguments.filter(|a: Seq<char>| a != "--drop-orphan-segments"@)
            &&& taken.1 <==> arguments.contains("--drop-orphan-segments"@)
        },
    decreases arguments.len(),
{
    reveal(Seq::filter);
    if arguments.len() > 0 {
        let front = arguments.drop_last();
        let last = arguments[arguments.len() - 1];
        salvage_takes_places(front);
        assert(arguments.last() == last);
        assert(forall|i: int| 0 <= i < front.len() ==> #[trigger] front[i] == arguments[i]);
        if salvage_steps(arguments) is Ok {
            assert forall|i: int| 0 <= i < arguments.len() implies !begins_with(
                #[trigger] arguments[i],
                "--"@,
            ) || arguments[i] == "--drop-orphan-segments"@ by {
                if i < front.len() {
                    assert(front[i] == arguments[i]);
                }
            }
        }
        assert(arguments.contains("--drop-orphan-segments"@) <==> front.contains(
            "--drop-orphan-segments"@,
        ) || last == "--drop-orphan-segments"@) by {
            if front.contains("--drop-orphan-segments"@) {
                let i = choose|i: int|
                    0 <= i < front.len() && front[i] == "--drop-orphan-segments"@;
                assert(arguments[i] == front[i]);
            }
            if arguments.contains("--drop-orphan-segments"@) {
                let i = choose|i: int|
                    0 <= i < arguments.len() && arguments[i] == "--drop-orphan-segments"@;
                if i < front.len() {
                    assert(front[i] == arguments[i]);
                }
            }
        }
    }
}

// Frames in hex.

/// What a byte in hex counts for: the digits and the letters up to `f`, small or large.
pub open spec fn hex_counts(byte: u8) -> Option<int> {
    if 0x30 <= byte <= 0x39 {
        Some(byte - 0x30)
    } else if 0x41 <= byte <= 0x46 {
        Some(byte - 0x41 + 10)
    } else if 0x61 <= byte <= 0x66 {
        Some(byte - 0x61 + 10)
    } else {
        None
    }
}

proof fn lemma_hex_pairs(digits: Seq<u8>, n: nat)
    requires
        2 * n <= digits.len(),
    ensures
        hex_pairs(digits, n) is Some <==> forall|i: int|
            0 <= i < 2 * n ==> hex_counts(#[trigger] digits[i]) is Some,
        hex_pairs(digits, n) matches Some(bytes) ==> bytes.len() == n && forall|i: int|
            0 <= i < n ==> (#[trigger] bytes[i]) == 16 * hex_counts(digits[2 * i])->Some_0
                + hex_counts(digits[2 * i + 1])->Some_0,
    decreases n,
{
    if n > 0 {
        lemma_hex_pairs(digits, (n - 1) as nat);
        let high = digits[2 * n - 2];
        let low = digits[2 * n - 1];
        assert(hex_value(high) is Some <==> hex_counts(high) is Some);
        assert(hex_value(low) is Some <==> hex_counts(low) is Some);
        if hex_pairs(digits, n) is Some {
            assert forall|i: int| 0 <= i < 2 * n implies hex_counts(#[trigger] digits[i]) is Some by {
            }
        }
    }
}

/// A text in hex stands for bytes exactly where it has two digits for each, and for no more
/// than a frame may hold; each byte is what its two digits count for.
pub proof fn hex_stands_for_bytes(text: Seq<char>)
    ensures
        ({
            let digits = encode_utf8(trimmed(text));
            &&& hex_decoded(text) is Ok <==> {
                &&& digits.len() % 2 == 0
                &&& digits.len() <= 8 * 1024 * 1024
                &&& forall|i: int|
                    0 <= i < digits.len() ==> hex_counts(#[trigger] digits[i]) is Some
            }
            &&& hex_decoded(text) matches Ok(bytes)
                ==> 2 * bytes.len() == digits.len() && forall|i: int|
                0 <= i < bytes.len() ==> (#[trigger] bytes[i]) == 16 * hex_counts(
                    digits[2 * i],
                )->Some_0 + hex_counts(digits[2 * i + 1])->Some_0
        }),
{
    let digits = encode_utf8(trimmed(text));
    if digits.len() % 2 == 0 {
        lemma_hex_pairs(digits, digits.len() / 2);
    }
}

/// A batch is counted exactly where its records and its points fit in what is left of the
/// limits, and it is counted in full.
pub proof fn batches_are_counted_within_limits(
    totals: FrameTotals,
    limits: ShadowReconcileLimits,
    batch: BatchModel,
)
    ensures
        ({
            let records = batch.entities.len() + batch.relations.len() + batch.series.len()
                + batch.runs.len() + batch.plans.len();
            &&& batch_counted(totals, limits, batch) is Ok <==> totals.metadata_records + records
                <= limits.max_metadata_records && totals.points + batch.points.len()
                <= limits.max_expected_points
            &&& batch_counted(totals, limits, batch) matches Ok(next) ==> {
                &&& next.metadata_records == totals.metadata_records + records
                &&& next.points == totals.points + batch.points.len()
                &&& next.frame_bytes == totals.frame_bytes
            }
        }),
{
}

} // verus!
