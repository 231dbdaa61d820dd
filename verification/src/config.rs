//! The validated configuration the engine runs on: candidate commands,
//! scoring rules, and the auto-select thresholds, together with the
//! start-up validation that every rule must pass before any input is read.

use vstd::prelude::*;

verus! {

/// Most effects a single configuration may carry; keeps every running
/// score within `i64` range.
pub const EFFECT_LIMIT: usize = 0x4000_0000;

/// A launchable candidate command: what the menu shows and what the shell
/// runs.
#[derive(Clone)]
pub struct CommandSpec {
    pub display: String,
    pub command: String,
}

/// A scoring rule: a predicate plus the (label, delta) effects it applies
/// when the predicate matches.
pub enum Scorer {
    PatternSingle { pattern: String, target_label: String, delta: i32 },
    CheckCommandSingle { check_command: String, target_label: String, delta: i32 },
    PatternMulti { pattern: String, targets: Vec<(String, i32)> },
    CheckCommandMulti { check_command: String, targets: Vec<(String, i32)> },
}

impl Scorer {
    /// The (label, delta) effects this rule applies when it matches.
    pub open spec fn effects(self) -> Seq<(String, i32)> {
        match self {
            Scorer::PatternSingle { target_label, delta, .. } => seq![(target_label, delta)],
            Scorer::CheckCommandSingle { target_label, delta, .. } => seq![(target_label, delta)],
            Scorer::PatternMulti { targets, .. } => targets@,
            Scorer::CheckCommandMulti { targets, .. } => targets@,
        }
    }

    /// The check command this rule needs run, if its predicate is an
    /// externally executed command.
    pub open spec fn check_command_spec(self) -> Option<String> {
        match self {
            Scorer::CheckCommandSingle { check_command, .. } => Some(check_command),
            Scorer::CheckCommandMulti { check_command, .. } => Some(check_command),
            _ => None,
        }
    }

    /// Hands out the check command to run for this rule, if any.
    pub fn check_command(&self) -> (r: Option<&String>)
        ensures
            match r {
                Some(c) => self.check_command_spec() == Some(*c),
                None => self.check_command_spec() is None,
            },
    {
        match self {
            Scorer::CheckCommandSingle { check_command, .. } => Some(check_command),
            Scorer::CheckCommandMulti { check_command, .. } => Some(check_command),
            _ => None,
        }
    }

    /// The labels this rule targets, in effect order.
    pub fn command_labels(&self) -> (r: Vec<String>)
        ensures
            r@.len() == self.effects().len(),
            forall|k: int| 0 <= k < r@.len() ==> (#[trigger] r@[k])@ == self.effects()[k].0@,
    {
        match self {
            Scorer::PatternSingle { target_label, .. } => vec![target_label.clone()],
            Scorer::CheckCommandSingle { target_label, .. } => vec![target_label.clone()],
            Scorer::PatternMulti { targets, .. } => labels_of(targets),
            Scorer::CheckCommandMulti { targets, .. } => labels_of(targets),
        }
    }

    /// How many effects this rule carries.
    pub fn effect_len(&self) -> (n: usize)
        ensures
            n == self.effects().len(),
    {
        match self {
            Scorer::PatternSingle { .. } => 1,
            Scorer::CheckCommandSingle { .. } => 1,
            Scorer::PatternMulti { targets, .. } => targets.len(),
            Scorer::CheckCommandMulti { targets, .. } => targets.len(),
        }
    }
}

/// Clones the labels out of a (label, delta) list.
fn labels_of(targets: &Vec<(String, i32)>) -> (r: Vec<String>)
    ensures
        r@.len() == targets@.len(),
        forall|k: int| 0 <= k < r@.len() ==> (#[trigger] r@[k])@ == targets@[k].0@,
{
    let mut r: Vec<String> = Vec::new();
    let mut k: usize = 0;
    while k < targets.len()
        invariant
            k <= targets@.len(),
            r@.len() == k,
            forall|t: int| 0 <= t < k ==> (#[trigger] r@[t])@ == targets@[t].0@,
        decreases targets@.len() - k,
    {
        r.push(targets[k].0.clone());
        k = k + 1;
    }
    r
}

/// Total number of effects over a rule list.
pub open spec fn effect_count(scorers: Seq<Scorer>) -> nat
    decreases scorers.len(),
{
    if scorers.len() == 0 {
        0
    } else {
        effect_count(scorers.drop_last()) + scorers.last().effects().len()
    }
}

/// A prefix never carries more effects than the whole list.
pub proof fn lemma_effect_count_prefix(scorers: Seq<Scorer>, i: int)
    requires
        0 <= i <= scorers.len(),
    ensures
        effect_count(scorers.take(i)) <= effect_count(scorers),
    decreases scorers.len(),
{
    if i == scorers.len() {
        assert(scorers.take(i) =~= scorers);
    } else if scorers.len() > 0 {
        assert(scorers.drop_last().take(i) =~= scorers.take(i));
        lemma_effect_count_prefix(scorers.drop_last(), i);
    }
}

/// A reference from a rule to a candidate label that no candidate defines.
pub struct MissingRef {
    pub scorer_index: usize,
    pub label: String,
}

/// Why a configuration was rejected at start-up.
pub enum ConfigError {
    /// The lower auto-select threshold does not lie below the upper one.
    BadThresholds { min: i32, max: i32 },
    /// Two candidates share a label.
    DuplicateLabel { first: usize, second: usize },
    /// Rules reference labels that no candidate defines.
    UndefinedLabels { refs: Vec<MissingRef> },
    /// The rules carry more effects than the engine accepts.
    TooManyEffects,
}

/// The engine's configuration: candidate commands in order, rules in
/// order, and the two auto-select thresholds.
pub struct Config {
    pub commands: Vec<(String, CommandSpec)>,
    pub scorers: Vec<Scorer>,
    pub auto_select_min_threshold: i32,
    pub auto_select_max_threshold: i32,
}

impl Config {
    /// Some candidate carries this label.
    pub open spec fn has_label(self, l: Seq<char>) -> bool {
        exists|i: int| 0 <= i < self.commands@.len() && (#[trigger] self.commands@[i]).0@ == l
    }

    /// Candidate labels are pairwise distinct.
    pub open spec fn labels_unique(self) -> bool {
        forall|i: int, j: int|
            0 <= i < j < self.commands@.len() ==> (#[trigger] self.commands@[i]).0@ != (
            #[trigger] self.commands@[j]).0@
    }

    /// The lower threshold lies strictly below the upper one.
    pub open spec fn thresholds_ok(self) -> bool {
        self.auto_select_min_threshold < self.auto_select_max_threshold
    }

    /// Every label any rule targets names a configured candidate.
    pub open spec fn scorer_labels_defined(self) -> bool {
        forall|i: int, k: int|
            0 <= i < self.scorers@.len() && 0 <= k < self.scorers@[i].effects().len()
                ==> self.has_label((#[trigger] self.scorers@[i].effects()[k]).0@)
    }

    /// The whole well-formedness invariant the engine relies on.
    pub open spec fn wf(self) -> bool {
        &&& self.thresholds_ok()
        &&& self.labels_unique()
        &&& self.scorer_labels_defined()
        &&& effect_count(self.scorers@) <= EFFECT_LIMIT
    }

    /// Linear scan deciding [`Config::has_label`].
    pub fn contains_label(&self, l: &String) -> (r: bool)
        ensures
            r == self.has_label(l@),
    {
        let mut i: usize = 0;
        while i < self.commands.len()
            invariant
                i <= self.commands@.len(),
                forall|j: int| 0 <= j < i ==> (#[trigger] self.commands@[j]).0@ != l@,
            decreases self.commands@.len() - i,
        {
            if self.commands[i].0 == *l {
                return true;
            }
            i = i + 1;
        }
        false
    }

    /// Start-up validation: accepts the configuration exactly when it is
    /// well formed, and says otherwise what is wrong. Runs before any
    /// input is read.
    pub fn validate(&self) -> (r: Result<(), ConfigError>)
        ensures
            r is Ok <==> self.wf(),
            match r {
                Result::Ok(()) => true,
                Result::Err(e) => match e {
                    ConfigError::BadThresholds { min, max } => {
                        &&& min == self.auto_select_min_threshold
                        &&& max == self.auto_select_max_threshold
                        &&& min >= max
                    },
                    ConfigError::DuplicateLabel { first, second } => {
                        &&& self.thresholds_ok()
                        &&& first < second < self.commands@.len()
                        &&& self.commands@[first as int].0@ == self.commands@[second as int].0@
                    },
                    ConfigError::UndefinedLabels { refs } => {
                        &&& self.thresholds_ok()
                        &&& self.labels_unique()
                        &&& refs@.len() > 0
                        &&& forall|t: int|
                            0 <= t < refs@.len() ==> {
                                let r = #[trigger] refs@[t];
                                &&& r.scorer_index < self.scorers@.len()
                                &&& !self.has_label(r.label@)
                                &&& exists|k: int|
                                    0 <= k < self.scorers@[r.scorer_index as int].effects().len()
                                        && (#[trigger] self.scorers@[
                                        r.scorer_index as int].effects()[k]).0@ == r.label@
                            }
                    },
                    ConfigError::TooManyEffects => {
                        &&& self.thresholds_ok()
                        &&& self.labels_unique()
                        &&& self.scorer_labels_defined()
                        &&& effect_count(self.scorers@) > EFFECT_LIMIT
                    },
                },
            },
    {
        if self.auto_select_min_threshold >= self.auto_select_max_threshold {
            return Result::Err(ConfigError::BadThresholds {
                min: self.auto_select_min_threshold,
                max: self.auto_select_max_threshold,
            });
        }
        let mut i: usize = 0;
        while i < self.commands.len()
            invariant
                i <= self.commands@.len(),
                self.thresholds_ok(),
                forall|a: int, b: int|
                    0 <= a < b < i ==> (#[trigger] self.commands@[a]).0@ != (
                    #[trigger] self.commands@[b]).0@,
            decreases self.commands@.len() - i,
        {
            let mut j: usize = 0;
            while j < i
                invariant
                    j <= i < self.commands@.len(),
                    self.thresholds_ok(),
                    forall|a: int| 0 <= a < j ==> (#[trigger] self.commands@[a]).0@ != self.commands@[i as int].0@,
                decreases i - j,
            {
                if self.commands[j].0 == self.commands[i].0 {
                    return Result::Err(ConfigError::DuplicateLabel { first: j, second: i });
                }
                j = j + 1;
            }
            i = i + 1;
        }
        let mut refs: Vec<MissingRef> = Vec::new();
        let mut si: usize = 0;
        while si < self.scorers.len()
            invariant
                si <= self.scorers@.len(),
                self.thresholds_ok(),
                self.labels_unique(),
                forall|t: int|
                    0 <= t < refs@.len() ==> {
                        let r = #[trigger] refs@[t];
                        &&& r.scorer_index < self.scorers@.len()
                        &&& !self.has_label(r.label@)
                        &&& exists|k: int|
                            0 <= k < self.scorers@[r.scorer_index as int].effects().len() && (
                            #[trigger] self.scorers@[r.scorer_index as int].effects()[k]).0@
                                == r.label@
                    },
                refs@.len() == 0 ==> forall|a: int, k: int|
                    0 <= a < si && 0 <= k < self.scorers@[a].effects().len() ==> self.has_label((
                    #[trigger] self.scorers@[a].effects()[k]).0@),
            decreases self.scorers@.len() - si,
        {
            let labels = self.scorers[si].command_labels();
            let mut li: usize = 0;
            while li < labels.len()
                invariant
                    li <= labels@.len(),
                    si < self.scorers@.len(),
                    self.thresholds_ok(),
                    self.labels_unique(),
                    labels@.len() == self.scorers@[si as int].effects().len(),
                    forall|k: int|
                        0 <= k < labels@.len() ==> (#[trigger] labels@[k])@ == self.scorers@[
                        si as int].effects()[k].0@,
                    forall|t: int|
                        0 <= t < refs@.len() ==> {
                            let r = #[trigger] refs@[t];
                            &&& r.scorer_index < self.scorers@.len()
                            &&& !self.has_label(r.label@)
                            &&& exists|k: int|
                                0 <= k < self.scorers@[r.scorer_index as int].effects().len() && (
                                #[trigger] self.scorers@[r.scorer_index as int].effects()[k]).0@
                                    == r.label@
                        },
                    refs@.len() == 0 ==> forall|a: int, k: int|
                        0 <= a < si && 0 <= k < self.scorers@[a].effects().len() ==> self.has_label(
                        (#[trigger] self.scorers@[a].effects()[k]).0@),
                    refs@.len() == 0 ==> forall|k: int|
                        0 <= k < li ==> self.has_label((#[trigger] self.scorers@[
                        si as int].effects()[k]).0@),
                decreases labels@.len() - li,
            {
                if !self.contains_label(&labels[li]) {
                    let ghost old_refs = refs@;
                    refs.push(MissingRef { scorer_index: si, label: labels[li].clone() });
                    proof {
                        let k = li as int;
                        let r = refs@[refs@.len() - 1];
                        assert(refs@ == old_refs.push(r));
                        assert(forall|t: int| 0 <= t < old_refs.len() ==> refs@[t] == old_refs[t]);
                        assert(r.scorer_index == si);
                        assert(r.label@ == labels@[k]@);
                        assert(0 <= k < self.scorers@[r.scorer_index as int].effects().len() && (
                        self.scorers@[r.scorer_index as int].effects()[k]).0@ == r.label@);
                    }
                }
                li = li + 1;
            }
            si = si + 1;
        }
        if refs.len() > 0 {
            proof {
                let r = refs@[0];
                let k = choose|k: int|
                    0 <= k < self.scorers@[r.scorer_index as int].effects().len() && (
                    self.scorers@[r.scorer_index as int].effects()[k]).0@ == r.label@;
                assert(!self.has_label(self.scorers@[r.scorer_index as int].effects()[k].0@));
                assert(!self.scorer_labels_defined());
            }
            return Result::Err(ConfigError::UndefinedLabels { refs });
        }
        let mut count: usize = 0;
        let mut bi: usize = 0;
        while bi < self.scorers.len()
            invariant
                bi <= self.scorers@.len(),
                count == effect_count(self.scorers@.take(bi as int)),
                count <= EFFECT_LIMIT,
                self.thresholds_ok(),
                self.labels_unique(),
                self.scorer_labels_defined(),
            decreases self.scorers@.len() - bi,
        {
            let n = self.scorers[bi].effect_len();
            proof {
                assert(self.scorers@.take(bi + 1).drop_last() =~= self.scorers@.take(bi as int));
                assert(self.scorers@.take(bi + 1).last() == self.scorers@[bi as int]);
            }
            if n > EFFECT_LIMIT || count + n > EFFECT_LIMIT {
                proof {
                    lemma_effect_count_prefix(self.scorers@, bi + 1);
                }
                return Result::Err(ConfigError::TooManyEffects);
            }
            count = count + n;
            bi = bi + 1;
        }
        proof {
            assert(self.scorers@.take(self.scorers@.len() as int) =~= self.scorers@);
        }
        Result::Ok(())
    }
}

} // verus!
