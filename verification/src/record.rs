use vstd::prelude::*;
use crate::lint::LintKind;

verus! {

/// A named enable/disable policy: which lint rules a caller wants to see.
/// The core only carries it; filtering is the caller's concern.
#[derive(Debug)]
pub struct LintGroupConfig {
    pub rules: Vec<(Vec<char>, bool)>,
}

impl View for LintGroupConfig {
    type V = Seq<(Seq<char>, bool)>;

    open spec fn view(&self) -> Seq<(Seq<char>, bool)> {
        self.rules@.map_values(|p: (Vec<char>, bool)| (p.0@, p.1))
    }
}

/// The setting a rule name was last given, if any.
pub open spec fn rule_setting(s: Seq<(Seq<char>, bool)>, name: Seq<char>) -> Option<bool>
    decreases s.len(),
{
    if s.len() == 0 {
        None
    } else if s.last().0 == name {
        Some(s.last().1)
    } else {
        rule_setting(s.drop_last(), name)
    }
}

impl LintGroupConfig {
    /// A policy with no rule settings.
    pub fn new() -> (r: LintGroupConfig)
        ensures
            r@ == Seq::<(Seq<char>, bool)>::empty(),
    {
        let r = LintGroupConfig { rules: Vec::new() };
        proof {
            assert(r@ =~= Seq::<(Seq<char>, bool)>::empty());
        }
        r
    }

    /// Records a rule setting; a later setting for the same name wins.
    pub fn set_rule_enabled(&mut self, name: Vec<char>, enabled: bool)
        ensures
            final(self)@ == old(self)@.push((name@, enabled)),
    {
        let ghost pre = self@;
        let ghost prevec = self.rules@;
        let ghost nv = name@;
        self.rules.push((name, enabled));
        proof {
            assert forall|x: int| 0 <= x < self@.len() implies self@[x] == pre.push(
                (nv, enabled),
            )[x] by {
                if x < prevec.len() {
                    assert(self.rules@[x] == prevec[x]);
                }
            }
            assert(self@ =~= pre.push((nv, enabled)));
        }
    }

    /// The setting a rule currently has, if it was ever set.
    pub fn is_rule_enabled(&self, name: &Vec<char>) -> (r: Option<bool>)
        ensures
            r == rule_setting(self@, name@),
    {
        let ghost cfg = self@;
        let mut i: usize = self.rules.len();
        proof {
            assert(cfg.take(cfg.len() as int) =~= cfg);
        }
        while i > 0
            invariant
                i <= self.rules@.len(),
                cfg == self@,
                rule_setting(cfg, name@) == rule_setting(cfg.take(i as int), name@),
            decreases i,
        {
            i -= 1;
            proof {
                let pfx = cfg.take(i + 1);
                assert(pfx.last() == cfg[i as int]);
                assert(cfg[i as int] == (self.rules@[i as int].0@, self.rules@[i as int].1));
                assert(pfx.drop_last() =~= cfg.take(i as int));
            }
            if crate::replacement::chars_eq(&self.rules[i].0, name) {
                return Some(self.rules[i].1);
            }
        }
        proof {
            assert(cfg.take(0) =~= Seq::<(Seq<char>, bool)>::empty());
        }
        None
    }
}

/// What one telemetry record wraps: a lint kind that occurred, or a snapshot
/// of a caller's rule policy.
#[derive(Debug)]
pub enum RecordKind {
    Lint(LintKind),
    LintConfigUpdate(LintGroupConfig),
}

/// A clock that reads before the Unix epoch cannot stamp a record.
#[derive(Clone, Copy, PartialEq, Eq, Structural, Debug)]
pub enum ClockError {
    BeforeEpoch,
}

#[verifier::external_type_specification]
#[verifier::external_body]
pub struct ExUuid(uuid::Uuid);

/// One timestamped telemetry event, keyed by a globally unique identifier and
/// the Unix-epoch second it was recorded at.
#[derive(Debug)]
pub struct Record {
    pub kind: RecordKind,
    /// Recorded as seconds from the Unix epoch.
    pub when: u64,
    pub uuid: uuid::Uuid,
}

/// Relies on uuid::Uuid::new_v4: a fresh random (version 4) identifier.
/// Nothing is promised of its value, which depends on the process's
/// randomness source.
#[verifier::external_body]
fn new_uuid() -> uuid::Uuid {
    uuid::Uuid::new_v4()
}

/// Relies on std::time::SystemTime::now and SystemTime::duration_since: the
/// clock's whole seconds since the Unix epoch, or `None` when the clock reads
/// before the epoch.  Nothing is promised of the value, which depends on the
/// system clock.
#[verifier::external_body]
fn unix_seconds_now() -> Option<u64> {
    match std::time::SystemTime::now().duration_since(std::time::UNIX_EPOCH) {
        Ok(d) => Some(d.as_secs()),
        Err(_) => None,
    }
}

impl Record {
    /// A record of the given kind with the given stamp and identifier.
    pub fn new(kind: RecordKind, when: u64, id: uuid::Uuid) -> (r: Record)
        ensures
            r.kind == kind,
            r.when == when,
            r.uuid == id,
    {
        Record { kind, when, uuid: id }
    }

    /// A record of a new event at the current system time, with a fresh
    /// identifier.  Fails only when the clock reads before the Unix epoch;
    /// that failure is propagated, never clamped to zero.
    pub fn now(kind: RecordKind) -> (r: Result<Record, ClockError>)
        ensures
            match r {
                Ok(rec) => rec.kind == kind,
                Err(e) => e == ClockError::BeforeEpoch,
            },
    {
        match unix_seconds_now() {
            Some(secs) => Ok(Record::new(kind, secs, new_uuid())),
            None => Err(ClockError::BeforeEpoch),
        }
    }
}

} // verus!
