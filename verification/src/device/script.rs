//! Fault and latency scripts for the simulated disk.
use vstd::prelude::*;
use vstd::arithmetic::div_mod::*;
use vstd::arithmetic::mul::*;

use crate::device::block::DeviceError;
use crate::first::{first_some, lemma_first_at, lemma_first_clear, lemma_first_none};

verus! {

#[derive(Clone, Copy, Debug, PartialEq, Eq, Structural)]
pub enum DeviceEventKind {
    Read,
    Write,
    FlushData,
    FlushAll,
    Crash,
}

#[derive(Clone, Copy, Debug, PartialEq, Eq, Structural)]
pub enum DeviceEventOutcome {
    Completed,
    Dropped,
    Short { bytes: usize },
    Torn { durable_prefix: usize },
    Failed,
    Crashed,
}

/// One device request and what became of it.
#[derive(Clone, Copy, Debug, PartialEq, Eq, Structural)]
pub struct DeviceEvent {
    pub sequence: u64,
    pub kind: DeviceEventKind,
    pub offset: u64,
    pub len: usize,
    pub virtual_time: u64,
    pub outcome: DeviceEventOutcome,
    pub script_rule: Option<u32>,
    pub script_effect: Option<DeviceEffect>,
}

#[derive(Clone, Copy, Debug, PartialEq, Eq, Structural)]
pub struct ByteRange {
    pub offset: u64,
    pub len: u64,
}

/// `n`, or the largest `u64` where `n` is larger.
pub open spec fn saturate(n: int) -> u64 {
    if n > u64::MAX {
        u64::MAX
    } else {
        n as u64
    }
}

impl ByteRange {
    /// Whether the range and the `len` bytes from `offset` on share a byte, ends
    /// beyond the largest address being cut off there.
    pub open spec fn meets(self, offset: u64, len: nat) -> bool {
        offset < saturate(self.offset + self.len) && self.offset < saturate(offset + len)
    }

    pub fn intersects(self, offset: u64, len: usize) -> (hit: bool)
        ensures
            hit == self.meets(offset, len as nat),
    {
        let end: u64 = offset.saturating_add(len as u64);
        let range_end: u64 = self.offset.saturating_add(self.len);
        offset < range_end && self.offset < end
    }
}

/// Which occurrences of an event a rule is about.
#[derive(Clone, Copy, Debug, PartialEq, Eq, Structural)]
pub enum EventOccurrence {
    Any,
    Exact(u64),
    Every { first: u64, period: u64 },
}

impl Default for EventOccurrence {
    fn default() -> (occurrence: Self)
        ensures
            occurrence == EventOccurrence::Any,
    {
        EventOccurrence::Any
    }
}

impl EventOccurrence {
    /// Whether the event numbered `sequence` is one of the occurrences.
    pub open spec fn covers(self, sequence: int) -> bool {
        match self {
            EventOccurrence::Any => true,
            EventOccurrence::Exact(expected) => expected == sequence,
            EventOccurrence::Every { first, period } => period != 0 && sequence >= first && (
            sequence - first) % (period as int) == 0,
        }
    }

    pub fn matches(self, sequence: u64) -> (hit: bool)
        ensures
            hit == self.covers(sequence as int),
    {
        match self {
            EventOccurrence::Any => true,
            EventOccurrence::Exact(expected) => expected == sequence,
            EventOccurrence::Every { first, period } => {
                period != 0 && sequence >= first && (sequence - first) % period == 0
            },
        }
    }
}

#[derive(Clone, Copy, Debug, PartialEq, Eq, Structural)]
pub struct EventSelector {
    pub kind: DeviceEventKind,
    pub occurrence: EventOccurrence,
    pub range: Option<ByteRange>,
}

#[derive(Clone, Copy, Debug, PartialEq, Eq, Structural)]
pub enum DeviceEffect {
    Fail,
    Timeout,
    Drop,
    Short { bytes: usize },
    Tear { durable_prefix: usize },
    TearAndCrashAfter { durable_prefix: usize },
    CrashBefore,
    CrashAfter,
}

#[derive(Clone, Copy, Debug, PartialEq, Eq, Structural)]
pub struct DeviceRule {
    pub selector: EventSelector,
    pub effect: DeviceEffect,
}

#[derive(Clone, Copy, Debug, PartialEq, Eq, Structural)]
pub struct LatencyRule {
    pub selector: EventSelector,
    pub extra_ticks: u64,
}

/// In which order a flush makes the pending writes durable.
#[derive(Clone, Copy, Debug, PartialEq, Eq, Structural)]
pub enum ReorderPolicy {
    ByOffset,
    Reverse,
    Seeded { window: u32, seed: u64 },
}

#[derive(Clone, Copy, Debug, Default, PartialEq, Eq, Structural)]
pub struct LatencyProfile {
    pub read_ticks: u64,
    pub write_ticks: u64,
    pub flush_data_ticks: u64,
    pub flush_all_ticks: u64,
    pub jitter_ticks: u64,
    pub seed: u64,
}

/// How a simulated disk behaves.
#[derive(Debug, PartialEq, Eq)]
pub struct DeviceScript {
    pub atomic_unit: usize,
    pub reorder: Option<ReorderPolicy>,
    pub flush_data_writes: Option<u32>,
    pub latency: LatencyProfile,
    pub bad_ranges: Vec<ByteRange>,
    pub rules: Vec<DeviceRule>,
    pub latency_rules: Vec<LatencyRule>,
}

/// The script as mathematical values.
#[verifier::ext_equal]
pub struct ScriptView {
    pub atomic_unit: usize,
    pub reorder: Option<ReorderPolicy>,
    pub flush_data_writes: Option<u32>,
    pub latency: LatencyProfile,
    pub bad_ranges: Seq<ByteRange>,
    pub rules: Seq<DeviceRule>,
    pub latency_rules: Seq<LatencyRule>,
}

impl View for DeviceScript {
    type V = ScriptView;

    open spec fn view(&self) -> ScriptView {
        ScriptView {
            atomic_unit: self.atomic_unit,
            reorder: self.reorder,
            flush_data_writes: self.flush_data_writes,
            latency: self.latency,
            bad_ranges: self.bad_ranges@,
            rules: self.rules@,
            latency_rules: self.latency_rules@,
        }
    }
}

impl Clone for DeviceScript {
    fn clone(&self) -> (copy: Self)
        ensures
            copy@ == self@,
    {
        let copy = DeviceScript {
            atomic_unit: self.atomic_unit,
            reorder: self.reorder,
            flush_data_writes: self.flush_data_writes,
            latency: self.latency,
            bad_ranges: self.bad_ranges.clone(),
            rules: self.rules.clone(),
            latency_rules: self.latency_rules.clone(),
        };
        proof {
            assert(copy.bad_ranges@ =~= self.bad_ranges@);
            assert(copy.rules@ =~= self.rules@);
            assert(copy.latency_rules@ =~= self.latency_rules@);
        }
        copy
    }
}

/// A profile in which nothing takes time.
pub open spec fn no_latency() -> LatencyProfile {
    LatencyProfile {
        read_ticks: 0,
        write_ticks: 0,
        flush_data_ticks: 0,
        flush_all_ticks: 0,
        jitter_ticks: 0,
        seed: 0,
    }
}

/// The script of a disk on which nothing fails and nothing takes time.
pub open spec fn plain_script() -> ScriptView {
    ScriptView {
        atomic_unit: 1,
        reorder: None,
        flush_data_writes: None,
        latency: no_latency(),
        bad_ranges: Seq::empty(),
        rules: Seq::empty(),
        latency_rules: Seq::empty(),
    }
}

impl Default for DeviceScript {
    fn default() -> (script: Self)
        ensures
            script@ == plain_script(),
    {
        DeviceScript {
            atomic_unit: default_atomic_unit(),
            reorder: None,
            flush_data_writes: None,
            latency: LatencyProfile {
                read_ticks: 0,
                write_ticks: 0,
                flush_data_ticks: 0,
                flush_all_ticks: 0,
                jitter_ticks: 0,
                seed: 0,
            },
            bad_ranges: Vec::new(),
            rules: Vec::new(),
            latency_rules: Vec::new(),
        }
    }
}

fn default_atomic_unit() -> (unit: usize)
    ensures
        unit == 1,
{
    1
}

/// What is wrong with a byte range, if anything.
pub open spec fn range_problem(
    range: ByteRange,
    capacity: u64,
    message: &'static str,
) -> Option<&'static str> {
    if range.len == 0 {
        Some("device ranges must be non-empty")
    } else if range.offset + range.len > capacity {
        Some(message)
    } else {
        None
    }
}

/// What is wrong with a selector, if anything.
pub open spec fn selector_problem(selector: EventSelector, capacity: u64) -> Option<&'static str> {
    let range_issue = match selector.range {
        Some(range) => if selector.kind is FlushData || selector.kind is FlushAll {
            Some("flush selectors cannot have a byte range")
        } else {
            range_problem(range, capacity, "device selector range exceeds capacity")
        },
        None => None,
    };
    if range_issue is Some {
        range_issue
    } else if selector.occurrence is Every && selector.occurrence->period == 0 {
        Some("event occurrence period must be non-zero")
    } else if selector.kind is Crash {
        Some("crash is a trace event, not a script target")
    } else {
        None
    }
}

/// Whether an effect makes sense for an event of the given kind.
pub open spec fn effect_allowed(kind: DeviceEventKind, effect: DeviceEffect) -> bool {
    match kind {
        DeviceEventKind::Read => effect is Fail || effect is Timeout,
        DeviceEventKind::Write => true,
        DeviceEventKind::FlushData | DeviceEventKind::FlushAll => effect is Fail
            || effect is Timeout || effect is Drop || effect is CrashBefore
            || effect is CrashAfter,
        DeviceEventKind::Crash => false,
    }
}

/// What is wrong with a fault rule taken by itself, if anything.
pub open spec fn rule_problem(rule: DeviceRule, capacity: u64) -> Option<&'static str> {
    if selector_problem(rule.selector, capacity) is Some {
        selector_problem(rule.selector, capacity)
    } else if !effect_allowed(rule.selector.kind, rule.effect) {
        Some("device effect is invalid for event kind")
    } else {
        None
    }
}

/// What is wrong with a latency rule, if anything.
pub open spec fn latency_rule_problem(rule: LatencyRule, capacity: u64) -> Option<&'static str> {
    if selector_problem(rule.selector, capacity) is Some {
        selector_problem(rule.selector, capacity)
    } else if rule.selector.range is Some {
        Some("latency selectors are operation-wide and cannot have a byte range")
    } else {
        None
    }
}

/// Whether two occurrence patterns are taken to share an event.
pub open spec fn overlap(left: EventOccurrence, right: EventOccurrence) -> bool {
    match (left, right) {
        (EventOccurrence::Any, _) | (_, EventOccurrence::Any) => true,
        (EventOccurrence::Exact(l), _) => right.covers(l as int),
        (_, EventOccurrence::Exact(r)) => left.covers(r as int),
        (
            EventOccurrence::Every { first: lf, period: lp },
            EventOccurrence::Every { first: rf, period: rp },
        ) => lp != 0 && rp != 0 && distance(lf, rf) % gcd_of(lp as nat, rp as nat) == 0,
    }
}

pub open spec fn distance(a: u64, b: u64) -> nat {
    if a >= b {
        (a - b) as nat
    } else {
        (b - a) as nat
    }
}

/// The greatest common divisor.
pub open spec fn gcd_of(a: nat, b: nat) -> nat
    decreases b,
{
    if b == 0 {
        a
    } else {
        gcd_of(b, a % b)
    }
}

/// Whether two of the rules are about the same kind of event and overlap.
pub open spec fn rules_overlap(rules: Seq<DeviceRule>) -> bool {
    exists|i: int, j: int|
        0 <= j < i < rules.len() && (#[trigger] rules[i]).selector.kind == (
        #[trigger] rules[j]).selector.kind && overlap(
            rules[i].selector.occurrence,
            rules[j].selector.occurrence,
        )
}

impl ScriptView {
    /// The first thing wrong with the script for a device of `capacity` bytes.
    pub open spec fn problem(self, capacity: u64) -> Option<&'static str> {
        let bad = first_some(
            |i: int|
                range_problem(self.bad_ranges[i], capacity, "bad range exceeds device capacity"),
            0,
            self.bad_ranges.len() as int,
        );
        let rules = first_some(
            |i: int| rule_problem(self.rules[i], capacity),
            0,
            self.rules.len() as int,
        );
        let latency = first_some(
            |i: int| latency_rule_problem(self.latency_rules[i], capacity),
            0,
            self.latency_rules.len() as int,
        );
        if self.atomic_unit == 0 {
            Some("atomic_unit must be non-zero")
        } else if bad is Some {
            bad
        } else if rules is Some {
            rules
        } else if latency is Some {
            latency
        } else if rules_overlap(self.rules) {
            Some("device rules overlap at the same event")
        } else {
            None
        }
    }

    /// What a disk needs of its script.
    pub open spec fn usable(self) -> bool {
        &&& self.atomic_unit != 0
        &&& forall|i: int|
            0 <= i < self.rules.len() ==> effect_allowed(
                (#[trigger] self.rules[i]).selector.kind,
                self.rules[i].effect,
            )
        &&& !rules_overlap(self.rules)
    }
}

/// A script with no problem is usable.
pub proof fn lemma_accepted_is_usable(script: ScriptView, capacity: u64)
    requires
        script.problem(capacity) is None,
    ensures
        script.usable(),
{
    let problem = |i: int| rule_problem(script.rules[i], capacity);
    assert forall|i: int| 0 <= i < script.rules.len() implies effect_allowed(
        (#[trigger] script.rules[i]).selector.kind,
        script.rules[i].effect,
    ) by {
        lemma_first_none(problem, 0, script.rules.len() as int, i);
        assert(problem(i) is None);
    }
}

impl DeviceScript {
    /// Checks the script against a device of `capacity` bytes.
    pub fn validate(&self, capacity: u64) -> (r: Result<(), DeviceError>)
        ensures
            match self@.problem(capacity) {
                None => r is Ok,
                Some(message) => r == Err::<(), DeviceError>(DeviceError::InvalidConfig(message)),
            },
    {
        if self.atomic_unit == 0 {
            return Err(DeviceError::InvalidConfig("atomic_unit must be non-zero"));
        }
        let ghost view = self@;
        let ghost bad = |i: int|
            range_problem(view.bad_ranges[i], capacity, "bad range exceeds device capacity");
        let ghost faulty = |i: int| rule_problem(view.rules[i], capacity);
        let ghost slow = |i: int| latency_rule_problem(view.latency_rules[i], capacity);
        let mut i: usize = 0;
        while i < self.bad_ranges.len()
            invariant
                i <= self.bad_ranges@.len(),
                view == self@,
                view.atomic_unit != 0,
                bad == (|i: int|
                    range_problem(
                        view.bad_ranges[i],
                        capacity,
                        "bad range exceeds device capacity",
                    )),
                forall|j: int| 0 <= j < i ==> #[trigger] bad(j) is None,
            decreases self.bad_ranges@.len() - i,
        {
            let checked = validate_range(
                self.bad_ranges[i],
                capacity,
                "bad range exceeds device capacity",
            );
            if checked.is_err() {
                proof {
                    lemma_first_at(bad, 0, i as int, view.bad_ranges.len() as int);
                }
                return checked;
            }
            i = i + 1;
        }
        proof {
            lemma_first_clear(bad, 0, view.bad_ranges.len() as int);
        }
        let mut i: usize = 0;
        while i < self.rules.len()
            invariant
                i <= self.rules@.len(),
                view == self@,
                view.atomic_unit != 0,
                bad == (|i: int|
                    range_problem(
                        view.bad_ranges[i],
                        capacity,
                        "bad range exceeds device capacity",
                    )),
                first_some(bad, 0, view.bad_ranges.len() as int) is None,
                faulty == (|i: int| rule_problem(view.rules[i], capacity)),
                forall|j: int| 0 <= j < i ==> #[trigger] faulty(j) is None,
            decreases self.rules@.len() - i,
        {
            let rule = self.rules[i];
            let checked = validate_selector(rule.selector, capacity);
            if checked.is_err() {
                proof {
                    lemma_first_at(faulty, 0, i as int, view.rules.len() as int);
                }
                return checked;
            }
            let checked = validate_effect(rule.selector.kind, rule.effect);
            if checked.is_err() {
                proof {
                    lemma_first_at(faulty, 0, i as int, view.rules.len() as int);
                }
                return checked;
            }
            i = i + 1;
        }
        proof {
            lemma_first_clear(faulty, 0, view.rules.len() as int);
        }
        let mut i: usize = 0;
        while i < self.latency_rules.len()
            invariant
                i <= self.latency_rules@.len(),
                view == self@,
                view.atomic_unit != 0,
                bad == (|i: int|
                    range_problem(
                        view.bad_ranges[i],
                        capacity,
                        "bad range exceeds device capacity",
                    )),
                first_some(bad, 0, view.bad_ranges.len() as int) is None,
                faulty == (|i: int| rule_problem(view.rules[i], capacity)),
                first_some(faulty, 0, view.rules.len() as int) is None,
                slow == (|i: int| latency_rule_problem(view.latency_rules[i], capacity)),
                forall|j: int| 0 <= j < i ==> #[trigger] slow(j) is None,
            decreases self.latency_rules@.len() - i,
        {
            let rule = self.latency_rules[i];
            let checked = validate_selector(rule.selector, capacity);
            if checked.is_err() {
                proof {
                    lemma_first_at(slow, 0, i as int, view.latency_rules.len() as int);
                }
                return checked;
            }
            if rule.selector.range.is_some() {
                proof {
                    lemma_first_at(slow, 0, i as int, view.latency_rules.len() as int);
                }
                return Err(
                    DeviceError::InvalidConfig(
                        "latency selectors are operation-wide and cannot have a byte range",
                    ),
                );
            }
            i = i + 1;
        }
        proof {
            lemma_first_clear(slow, 0, view.latency_rules.len() as int);
        }
        validate_no_overlapping_rules(&self.rules)
    }
}

fn validate_range(range: ByteRange, capacity: u64, message: &'static str) -> (r: Result<
    (),
    DeviceError,
>)
    ensures
        match range_problem(range, capacity, message) {
            None => r is Ok,
            Some(m) => r == Err::<(), DeviceError>(DeviceError::InvalidConfig(m)),
        },
{
    if range.len == 0 {
        return Err(DeviceError::InvalidConfig("device ranges must be non-empty"));
    }
    match range.offset.checked_add(range.len) {
        Some(end) => {
            if end > capacity {
                Err(DeviceError::InvalidConfig(message))
            } else {
                Ok(())
            }
        },
        None => Err(DeviceError::InvalidConfig(message)),
    }
}

fn validate_selector(selector: EventSelector, capacity: u64) -> (r: Result<(), DeviceError>)
    ensures
        match selector_problem(selector, capacity) {
            None => r is Ok,
            Some(m) => r == Err::<(), DeviceError>(DeviceError::InvalidConfig(m)),
        },
{
    if let Some(range) = selector.range {
        if matches!(selector.kind, DeviceEventKind::FlushData | DeviceEventKind::FlushAll) {
            return Err(DeviceError::InvalidConfig("flush selectors cannot have a byte range"));
        }
        let checked = validate_range(range, capacity, "device selector range exceeds capacity");
        if checked.is_err() {
            return checked;
        }
    }
    if let EventOccurrence::Every { first: _, period } = selector.occurrence {
        if period == 0 {
            return Err(DeviceError::InvalidConfig("event occurrence period must be non-zero"));
        }
    }
    if selector.kind == DeviceEventKind::Crash {
        return Err(DeviceError::InvalidConfig("crash is a trace event, not a script target"));
    }
    Ok(())
}

fn validate_effect(kind: DeviceEventKind, effect: DeviceEffect) -> (r: Result<(), DeviceError>)
    ensures
        r == if effect_allowed(kind, effect) {
            Ok::<(), DeviceError>(())
        } else {
            Err(DeviceError::InvalidConfig("device effect is invalid for event kind"))
        },
{
    let valid = match kind {
        DeviceEventKind::Read => matches!(effect, DeviceEffect::Fail | DeviceEffect::Timeout),
        DeviceEventKind::Write => true,
        DeviceEventKind::FlushData | DeviceEventKind::FlushAll => matches!(
            effect,
            DeviceEffect::Fail
                | DeviceEffect::Timeout
                | DeviceEffect::Drop
                | DeviceEffect::CrashBefore
                | DeviceEffect::CrashAfter
        ),
        DeviceEventKind::Crash => false,
    };
    if valid {
        Ok(())
    } else {
        Err(DeviceError::InvalidConfig("device effect is invalid for event kind"))
    }
}

fn validate_no_overlapping_rules(rules: &Vec<DeviceRule>) -> (r: Result<(), DeviceError>)
    ensures
        r == if rules_overlap(rules@) {
            Err::<(), DeviceError>(
                DeviceError::InvalidConfig("device rules overlap at the same event"),
            )
        } else {
            Ok(())
        },
{
    let mut i: usize = 0;
    while i < rules.len()
        invariant
            i <= rules@.len(),
            forall|a: int, b: int|
                0 <= b < a < i ==> !((#[trigger] rules@[a]).selector.kind == (
                #[trigger] rules@[b]).selector.kind && overlap(
                    rules@[a].selector.occurrence,
                    rules@[b].selector.occurrence,
                )),
        decreases rules@.len() - i,
    {
        let left = rules[i];
        let mut j: usize = 0;
        while j < i
            invariant
                j <= i < rules@.len(),
                left == rules@[i as int],
                forall|a: int, b: int|
                    0 <= b < a < i ==> !((#[trigger] rules@[a]).selector.kind == (
                    #[trigger] rules@[b]).selector.kind && overlap(
                        rules@[a].selector.occurrence,
                        rules@[b].selector.occurrence,
                    )),
                forall|b: int|
                    0 <= b < j ==> !(left.selector.kind == (#[trigger] rules@[b]).selector.kind
                        && overlap(left.selector.occurrence, rules@[b].selector.occurrence)),
            decreases i - j,
        {
            let right = rules[j];
            if left.selector.kind == right.selector.kind && occurrences_overlap(
                left.selector.occurrence,
                right.selector.occurrence,
            ) {
                proof {
                    assert(rules@[i as int] == left && rules@[j as int] == right);
                }
                return Err(DeviceError::InvalidConfig("device rules overlap at the same event"));
            }
            j = j + 1;
        }
        i = i + 1;
    }
    Ok(())
}

fn occurrences_overlap(left: EventOccurrence, right: EventOccurrence) -> (shared: bool)
    ensures
        shared == overlap(left, right),
{
    match left {
        EventOccurrence::Any => true,
        EventOccurrence::Exact(exact) => match right {
            EventOccurrence::Any => true,
            _ => right.matches(exact),
        },
        EventOccurrence::Every { first: left_first, period: left_period } => match right {
            EventOccurrence::Any => true,
            EventOccurrence::Exact(exact) => left.matches(exact),
            EventOccurrence::Every { first: right_first, period: right_period } => {
                if left_period == 0 || right_period == 0 {
                    return false;
                }
                let apart: u64 = if left_first >= right_first {
                    left_first - right_first
                } else {
                    right_first - left_first
                };
                proof {
                    lemma_gcd_divides(left_period as nat, right_period as nat);
                }
                apart % gcd(left_period, right_period) == 0
            },
        },
    }
}

/// The greatest common divisor of two numbers.
pub fn gcd(left: u64, right: u64) -> (divisor: u64)
    ensures
        divisor == gcd_of(left as nat, right as nat),
{
    let mut a: u64 = left;
    let mut b: u64 = right;
    while b != 0
        invariant
            gcd_of(a as nat, b as nat) == gcd_of(left as nat, right as nat),
        decreases b,
    {
        let next: u64 = a % b;
        a = b;
        b = next;
    }
    a
}

/// The greatest common divisor divides both numbers, and is positive unless both are zero.
pub proof fn lemma_gcd_divides(a: nat, b: nat)
    requires
        a > 0 || b > 0,
    ensures
        gcd_of(a, b) > 0,
        a % gcd_of(a, b) == 0,
        b % gcd_of(a, b) == 0,
    decreases b,
{
    if b == 0 {
        lemma_mod_self_0(a as int);
    } else {
        lemma_gcd_divides(b, a % b);
        let g = gcd_of(a, b);
        lemma_fundamental_div_mod(a as int, b as int);
        let q = a as int / b as int;
        lemma_fundamental_div_mod(b as int, g as int);
        lemma_fundamental_div_mod((a % b) as int, g as int);
        let x = b as int / g as int;
        let y = (a % b) as int / g as int;
        assert(a == g * (x * q + y)) by (nonlinear_arith)
            requires
                a == b * q + a % b,
                b == g * x,
                a % b == g * y,
        ;
        lemma_mod_multiples_basic(x * q + y, g as int);
        assert(a as int == (x * q + y) * g) by (nonlinear_arith)
            requires
                a == g * (x * q + y),
        ;
    }
}

/// Two patterns that an accepted script keeps apart never cover the same event.
pub proof fn law_kept_apart(left: EventOccurrence, right: EventOccurrence, sequence: int)
    requires
        !overlap(left, right),
    ensures
        !(left.covers(sequence) && right.covers(sequence)),
{
    if left.covers(sequence) && right.covers(sequence) {
        if let EventOccurrence::Every { first: lf, period: lp } = left {
            if let EventOccurrence::Every { first: rf, period: rp } = right {
                let g = gcd_of(lp as nat, rp as nat) as int;
                lemma_gcd_divides(lp as nat, rp as nat);
                lemma_fundamental_div_mod(sequence - lf, lp as int);
                lemma_fundamental_div_mod(sequence - rf, rp as int);
                lemma_fundamental_div_mod(lp as int, g);
                lemma_fundamental_div_mod(rp as int, g);
                let k = (sequence - lf) / (lp as int);
                let l = (sequence - rf) / (rp as int);
                let x = lp as int / g;
                let y = rp as int / g;
                assert(rf - lf == (x * k - y * l) * g) by (nonlinear_arith)
                    requires
                        sequence - lf == lp * k,
                        sequence - rf == rp * l,
                        lp == g * x,
                        rp == g * y,
                ;
                assert(lf - rf == (y * l - x * k) * g) by (nonlinear_arith)
                    requires
                        rf - lf == (x * k - y * l) * g,
                ;
                lemma_mod_multiples_basic(x * k - y * l, g);
                lemma_mod_multiples_basic(y * l - x * k, g);
                assert(false);
            }
        }
    }
}

/// In an accepted script at most one rule is about any event.
pub proof fn law_at_most_one_rule(
    script: ScriptView,
    capacity: u64,
    i: int,
    j: int,
    kind: DeviceEventKind,
    sequence: int,
)
    requires
        script.problem(capacity) is None,
        0 <= i < script.rules.len(),
        0 <= j < script.rules.len(),
        script.rules[i].selector.kind == kind,
        script.rules[j].selector.kind == kind,
        script.rules[i].selector.occurrence.covers(sequence),
        script.rules[j].selector.occurrence.covers(sequence),
    ensures
        i == j,
{
    if i < j {
        law_kept_apart(
            script.rules[j].selector.occurrence,
            script.rules[i].selector.occurrence,
            sequence,
        );
    } else if j < i {
        law_kept_apart(
            script.rules[i].selector.occurrence,
            script.rules[j].selector.occurrence,
            sequence,
        );
    }
}

} // verus!
