//! Which scripts a simulated disk takes.
use vstd::prelude::*;

use crate::device::script::{
    distance, gcd_of, latency_rule_problem, law_kept_apart, lemma_gcd_divides, overlap,
    plain_script, range_problem, rule_problem, rules_overlap, ByteRange, DeviceEffect,
    DeviceEventKind, EventOccurrence, EventSelector, ScriptView,
};
use crate::device::sim_effects::falls_on;
use crate::first::{lemma_first_clear, lemma_first_none};

verus! {

/// Whether the range has bytes and lies on a device of the size.
pub open spec fn lies_on(range: ByteRange, size: u64) -> bool {
    0 < range.len && range.offset + range.len <= size
}

/// Whether a rule can be about the events: requests alone, a pattern with a period, and bytes
/// only of transfers.
pub open spec fn can_select(selector: EventSelector, size: u64) -> bool {
    &&& !(selector.kind is Crash)
    &&& selector.occurrence matches EventOccurrence::Every { first, period } ==> period > 0
    &&& selector.range matches Some(range) ==> (selector.kind is Read || selector.kind is Write)
        && lies_on(range, size)
}

/// Whether the effect can strike a request of the kind: reads fail or time out, flushes fail,
/// time out, are dropped or crash, and anything can become of writes.
pub open spec fn can_strike(kind: DeviceEventKind, effect: DeviceEffect) -> bool {
    match effect {
        DeviceEffect::Fail | DeviceEffect::Timeout => !(kind is Crash),
        DeviceEffect::Drop | DeviceEffect::CrashBefore | DeviceEffect::CrashAfter => kind is Write
            || kind is FlushData || kind is FlushAll,
        DeviceEffect::Short { .. }
        | DeviceEffect::Tear { .. }
        | DeviceEffect::TearAndCrashAfter { .. } => kind is Write,
    }
}

/// Whether two patterns are seen to share no event: neither is about all, two single events
/// differ, a single event is not one of the other pattern, and two periodic patterns differ in
/// what they leave over of some number that divides both periods.
pub open spec fn apart(left: EventOccurrence, right: EventOccurrence) -> bool {
    match (left, right) {
        (EventOccurrence::Any, _) | (_, EventOccurrence::Any) => false,
        (EventOccurrence::Exact(l), _) => !falls_on(right, l as int),
        (_, EventOccurrence::Exact(r)) => !falls_on(left, r as int),
        (
            EventOccurrence::Every { first: lf, period: lp },
            EventOccurrence::Every { first: rf, period: rp },
        ) => exists|d: nat| #[trigger] splits(d, lf, lp, rf, rp),
    }
}

pub open spec fn splits(d: nat, lf: u64, lp: u64, rf: u64, rp: u64) -> bool {
    &&& d > 0
    &&& lp as nat % d == 0
    &&& rp as nat % d == 0
    &&& lf as nat % d != rf as nat % d
}

/// Whether nothing is wrong with a script for a device of the size.
pub open spec fn acceptable(script: ScriptView, size: u64) -> bool {
    &&& script.atomic_unit > 0
    &&& forall|i: int|
        0 <= i < script.bad_ranges.len() ==> lies_on(#[trigger] script.bad_ranges[i], size)
    &&& forall|i: int|
        0 <= i < script.rules.len() ==> can_select((#[trigger] script.rules[i]).selector, size)
            && can_strike(script.rules[i].selector.kind, script.rules[i].effect)
    &&& forall|i: int|
        0 <= i < script.latency_rules.len() ==> can_select(
            (#[trigger] script.latency_rules[i]).selector,
            size,
        ) && script.latency_rules[i].selector.range is None
}

proof fn lemma_divides_gcd(d: nat, a: nat, b: nat)
    requires
        d > 0,
        a % d == 0,
        b % d == 0,
    ensures
        gcd_of(a, b) % d == 0,
    decreases b,
{
    if b != 0 {
        assert((a % b) % d == 0) by {
            vstd::arithmetic::div_mod::lemma_fundamental_div_mod(a as int, b as int);
            vstd::arithmetic::div_mod::lemma_fundamental_div_mod(a as int, d as int);
            vstd::arithmetic::div_mod::lemma_fundamental_div_mod(b as int, d as int);
            let (q, x, y) = (a as int / b as int, a as int / d as int, b as int / d as int);
            assert(a as int % b as int == (x - y * q) * d) by (nonlinear_arith)
                requires
                    a as int == b as int * q + a as int % b as int,
                    a as int == d as int * x,
                    b as int == d as int * y,
            ;
            vstd::arithmetic::div_mod::lemma_mod_multiples_basic(x - y * q, d as int);
        }
        lemma_divides_gcd(d, b, a % b);
    }
}

proof fn lemma_apart(left: EventOccurrence, right: EventOccurrence)
    requires
        apart(left, right),
    ensures
        !overlap(left, right),
{
    if let EventOccurrence::Every { first: lf, period: lp } = left {
        if let EventOccurrence::Every { first: rf, period: rp } = right {
            let d = choose|d: nat| #[trigger] splits(d, lf, lp, rf, rp);
            let g = gcd_of(lp as nat, rp as nat);
            lemma_divides_gcd(d, lp as nat, rp as nat);
            if overlap(left, right) {
                let far = distance(lf, rf);
                assert(far % d == 0) by {
                    lemma_gcd_divides(lp as nat, rp as nat);
                    vstd::arithmetic::div_mod::lemma_fundamental_div_mod(far as int, g as int);
                    vstd::arithmetic::div_mod::lemma_fundamental_div_mod(g as int, d as int);
                    let (x, y) = (far as int / g as int, g as int / d as int);
                    assert(far as int == (x * y) * d) by (nonlinear_arith)
                        requires
                            far as int == g as int * x,
                            g as int == d as int * y,
                    ;
                    vstd::arithmetic::div_mod::lemma_mod_multiples_basic(x * y, d as int);
                }
                let (low, high) = if lf <= rf {
                    (lf as int, rf as int)
                } else {
                    (rf as int, lf as int)
                };
                let di = d as int;
                vstd::arithmetic::div_mod::lemma_fundamental_div_mod(far as int, di);
                let k = far as int / di;
                assert(high == di * k + low);
                vstd::arithmetic::div_mod::lemma_mod_multiples_vanish(k, low, di);
                assert(high % di == low % di);
                assert(false);
            }
        }
    }
}

/// A script in which nothing is wrong and no two rules for one kind of request can share an
/// event is taken.
pub proof fn law_acceptable_scripts_are_taken(script: ScriptView, size: u64)
    requires
        acceptable(script, size),
        forall|i: int, j: int|
            #![trigger script.rules[i], script.rules[j]]
            0 <= j < i < script.rules.len() && script.rules[i].selector.kind
                == script.rules[j].selector.kind ==> apart(
                script.rules[i].selector.occurrence,
                script.rules[j].selector.occurrence,
            ),
    ensures
        script.problem(size) is None,
{
    let bad = |i: int|
        range_problem(script.bad_ranges[i], size, "bad range exceeds device capacity");
    let faulty = |i: int| rule_problem(script.rules[i], size);
    let slow = |i: int| latency_rule_problem(script.latency_rules[i], size);
    assert forall|i: int| 0 <= i < script.bad_ranges.len() implies #[trigger] bad(i) is None by {
        assert(lies_on(script.bad_ranges[i], size));
    }
    assert forall|i: int| 0 <= i < script.rules.len() implies #[trigger] faulty(i) is None by {
        assert(can_select(script.rules[i].selector, size));
    }
    assert forall|i: int| 0 <= i < script.latency_rules.len() implies #[trigger] slow(
        i,
    ) is None by {
        assert(can_select(script.latency_rules[i].selector, size));
    }
    lemma_first_clear(bad, 0, script.bad_ranges.len() as int);
    lemma_first_clear(faulty, 0, script.rules.len() as int);
    lemma_first_clear(slow, 0, script.latency_rules.len() as int);
    assert(!rules_overlap(script.rules)) by {
        assert forall|i: int, j: int|
            0 <= j < i < script.rules.len() && (#[trigger] script.rules[i]).selector.kind == (
            #[trigger] script.rules[j]).selector.kind implies !overlap(
            script.rules[i].selector.occurrence,
            script.rules[j].selector.occurrence,
        ) by {
            lemma_apart(script.rules[i].selector.occurrence, script.rules[j].selector.occurrence);
        }
    }
}

/// A script that is taken has nothing wrong with it, and no two of its rules for one kind of
/// request share an event.
pub proof fn law_taken_scripts_are_acceptable(
    script: ScriptView,
    size: u64,
    i: int,
    j: int,
    number: int,
)
    requires
        script.problem(size) is None,
    ensures
        acceptable(script, size),
        0 <= j < i < script.rules.len() && script.rules[i].selector.kind
            == script.rules[j].selector.kind ==> !(falls_on(
            script.rules[i].selector.occurrence,
            number,
        ) && falls_on(script.rules[j].selector.occurrence, number)),
{
    let bad = |i: int|
        range_problem(script.bad_ranges[i], size, "bad range exceeds device capacity");
    let faulty = |i: int| rule_problem(script.rules[i], size);
    let slow = |i: int| latency_rule_problem(script.latency_rules[i], size);
    assert forall|i: int| 0 <= i < script.bad_ranges.len() implies lies_on(
        #[trigger] script.bad_ranges[i],
        size,
    ) by {
        lemma_first_none(bad, 0, script.bad_ranges.len() as int, i);
        assert(bad(i) is None);
    }
    assert forall|i: int| 0 <= i < script.rules.len() implies can_select(
        (#[trigger] script.rules[i]).selector,
        size,
    ) && can_strike(script.rules[i].selector.kind, script.rules[i].effect) by {
        lemma_first_none(faulty, 0, script.rules.len() as int, i);
        assert(faulty(i) is None);
    }
    assert forall|i: int| 0 <= i < script.latency_rules.len() implies can_select(
        (#[trigger] script.latency_rules[i]).selector,
        size,
    ) && script.latency_rules[i].selector.range is None by {
        lemma_first_none(slow, 0, script.latency_rules.len() as int, i);
        assert(slow(i) is None);
    }
    if 0 <= j < i < script.rules.len() && script.rules[i].selector.kind
        == script.rules[j].selector.kind {
        law_kept_apart(
            script.rules[i].selector.occurrence,
            script.rules[j].selector.occurrence,
            number,
        );
    }
}

/// A script that nobody wrote has no rules, no bad ranges and no latency, takes bytes one by one
/// and keeps the order of writes.
pub proof fn law_plain_scripts()
    ensures
        plain_script().rules.len() == 0,
        plain_script().latency_rules.len() == 0,
        plain_script().bad_ranges.len() == 0,
        plain_script().atomic_unit == 1,
        plain_script().reorder is None,
        plain_script().flush_data_writes is None,
        plain_script().latency.read_ticks == 0,
        plain_script().latency.write_ticks == 0,
        plain_script().latency.flush_data_ticks == 0,
        plain_script().latency.flush_all_ticks == 0,
        plain_script().latency.jitter_ticks == 0,
{
}

} // verus!
