//! The score aggregator: evaluates every rule in configuration order and
//! folds the matched rules' deltas into a score table that starts every
//! candidate at zero.

use vstd::prelude::*;
use crate::config::{CommandSpec, Config, Scorer, EFFECT_LIMIT, effect_count,
    lemma_effect_count_prefix};
use crate::pattern::{pattern_rule_matches, regex_rule_matches};

verus! {

/// Largest magnitude a single delta can have.
pub const DELTA_MAG: i64 = 0x8000_0000;

/// One candidate's row of the score table.
#[derive(Clone)]
pub struct ScoreEntry {
    pub label: String,
    pub command: CommandSpec,
    pub score: i64,
}

/// Whether a rule's predicate holds for the given matching text.
/// `check_ok` is the exit-status outcome of the rule's check command and
/// is ignored by pattern rules.
pub open spec fn scorer_matches(s: Scorer, text: Seq<char>, check_ok: bool) -> bool {
    match s {
        Scorer::PatternSingle { pattern, .. } => pattern_rule_matches(pattern@, text),
        Scorer::PatternMulti { pattern, .. } => pattern_rule_matches(pattern@, text),
        Scorer::CheckCommandSingle { .. } => check_ok,
        Scorer::CheckCommandMulti { .. } => check_ok,
    }
}

/// Sum of the deltas among `effects` that target `label`.
pub open spec fn sum_for_label(effects: Seq<(String, i32)>, label: Seq<char>) -> int
    decreases effects.len(),
{
    if effects.len() == 0 {
        0
    } else {
        sum_for_label(effects.drop_last(), label) + if effects.last().0@ == label {
            effects.last().1 as int
        } else {
            0
        }
    }
}

/// The delta one rule contributes to `label`.
pub open spec fn scorer_delta(s: Scorer, text: Seq<char>, check_ok: bool, label: Seq<char>) -> int {
    if scorer_matches(s, text, check_ok) {
        sum_for_label(s.effects(), label)
    } else {
        0
    }
}

/// The total score `label` accumulates from all rules: the sum of the
/// deltas of every rule whose predicate matched and which targets `label`.
pub open spec fn total_score(
    scorers: Seq<Scorer>,
    checks: Seq<bool>,
    text: Seq<char>,
    label: Seq<char>,
) -> int
    decreases scorers.len(),
{
    if scorers.len() == 0 {
        0
    } else {
        total_score(scorers.drop_last(), checks.drop_last(), text, label) + scorer_delta(
            scorers.last(),
            text,
            if checks.len() > 0 {
                checks.last()
            } else {
                false
            },
            label,
        )
    }
}

/// A label's share of an effect list is bounded by the list's length times
/// the largest delta.
pub proof fn lemma_sum_for_label_bound(effects: Seq<(String, i32)>, label: Seq<char>)
    ensures
        -(effects.len() * DELTA_MAG) <= sum_for_label(effects, label) <= effects.len() * DELTA_MAG,
    decreases effects.len(),
{
    if effects.len() > 0 {
        lemma_sum_for_label_bound(effects.drop_last(), label);
    }
}

/// A label's total is bounded by the number of effects times the largest
/// delta.
pub proof fn lemma_total_score_bound(
    scorers: Seq<Scorer>,
    checks: Seq<bool>,
    text: Seq<char>,
    label: Seq<char>,
)
    ensures
        -(effect_count(scorers) * DELTA_MAG) <= total_score(scorers, checks, text, label)
            <= effect_count(scorers) * DELTA_MAG,
    decreases scorers.len(),
{
    if scorers.len() > 0 {
        lemma_total_score_bound(scorers.drop_last(), checks.drop_last(), text, label);
        lemma_sum_for_label_bound(scorers.last().effects(), label);
    }
}

/// The fold over the rules is order-independent: swapping two
/// neighbouring rules, together with their check outcomes, leaves every
/// label's total score unchanged. A label's total is the sum of the
/// deltas of the matched rules that target it, whatever the evaluation
/// order.
pub proof fn lemma_total_score_swap(
    scorers: Seq<Scorer>,
    checks: Seq<bool>,
    text: Seq<char>,
    label: Seq<char>,
    i: int,
)
    requires
        checks.len() == scorers.len(),
        0 <= i,
        i + 1 < scorers.len(),
    ensures
        total_score(
            scorers.update(i, scorers[i + 1]).update(i + 1, scorers[i]),
            checks.update(i, checks[i + 1]).update(i + 1, checks[i]),
            text,
            label,
        ) == total_score(scorers, checks, text, label),
    decreases scorers.len(),
{
    let s2 = scorers.update(i, scorers[i + 1]).update(i + 1, scorers[i]);
    let c2 = checks.update(i, checks[i + 1]).update(i + 1, checks[i]);
    if i + 2 == scorers.len() {
        assert(s2.drop_last().drop_last() =~= scorers.drop_last().drop_last());
        assert(c2.drop_last().drop_last() =~= checks.drop_last().drop_last());
        assert(s2.last() == scorers[i] && c2.last() == checks[i]);
        assert(s2.drop_last().last() == scorers[i + 1] && c2.drop_last().last() == checks[i + 1]);
        assert(scorers.last() == scorers[i + 1] && checks.last() == checks[i + 1]);
        assert(scorers.drop_last().last() == scorers[i] && checks.drop_last().last() == checks[i]);
        assert(total_score(s2, c2, text, label) == total_score(
            s2.drop_last(),
            c2.drop_last(),
            text,
            label,
        ) + scorer_delta(s2.last(), text, c2.last(), label));
        assert(total_score(s2.drop_last(), c2.drop_last(), text, label) == total_score(
            s2.drop_last().drop_last(),
            c2.drop_last().drop_last(),
            text,
            label,
        ) + scorer_delta(s2.drop_last().last(), text, c2.drop_last().last(), label));
        assert(total_score(scorers, checks, text, label) == total_score(
            scorers.drop_last(),
            checks.drop_last(),
            text,
            label,
        ) + scorer_delta(scorers.last(), text, checks.last(), label));
        assert(total_score(scorers.drop_last(), checks.drop_last(), text, label) == total_score(
            scorers.drop_last().drop_last(),
            checks.drop_last().drop_last(),
            text,
            label,
        ) + scorer_delta(scorers.drop_last().last(), text, checks.drop_last().last(), label));
    } else {
        assert(s2.drop_last() =~= scorers.drop_last().update(i, scorers[i + 1]).update(
            i + 1,
            scorers[i],
        ));
        assert(c2.drop_last() =~= checks.drop_last().update(i, checks[i + 1]).update(
            i + 1,
            checks[i],
        ));
        assert(scorers.drop_last()[i] == scorers[i] && scorers.drop_last()[i + 1] == scorers[i
            + 1]);
        assert(checks.drop_last()[i] == checks[i] && checks.drop_last()[i + 1] == checks[i + 1]);
        lemma_total_score_swap(scorers.drop_last(), checks.drop_last(), text, label, i);
        assert(s2.last() == scorers.last() && c2.last() == checks.last());
    }
}

/// Re-evaluating the same rules against the same matching text and the
/// same check outcomes yields identical scores: a label's total is a
/// function of the rules, the text and the outcomes alone.
pub proof fn lemma_scoring_idempotent(
    scorers: Seq<Scorer>,
    checks: Seq<bool>,
    text: Seq<char>,
    label: Seq<char>,
    s1: int,
    s2: int,
)
    requires
        s1 == total_score(scorers, checks, text, label),
        s2 == total_score(scorers, checks, text, label),
    ensures
        s1 == s2,
{
}

/// Builds the fresh score table: every configured candidate present at
/// score zero, in configuration order.
pub fn init_score_table(config: &Config) -> (r: Vec<ScoreEntry>)
    ensures
        r@.len() == config.commands@.len(),
        forall|i: int|
            0 <= i < r@.len() ==> {
                &&& (#[trigger] r@[i]).label == config.commands@[i].0
                &&& r@[i].command.display == config.commands@[i].1.display
                &&& r@[i].command.command == config.commands@[i].1.command
                &&& r@[i].score == 0
            },
{
    let mut r: Vec<ScoreEntry> = Vec::new();
    let mut i: usize = 0;
    while i < config.commands.len()
        invariant
            i <= config.commands@.len(),
            r@.len() == i,
            forall|j: int|
                0 <= j < i ==> {
                    &&& (#[trigger] r@[j]).label == config.commands@[j].0
                    &&& r@[j].command.display == config.commands@[j].1.display
                    &&& r@[j].command.command == config.commands@[j].1.command
                    &&& r@[j].score == 0
                },
        decreases config.commands@.len() - i,
    {
        let pair = &config.commands[i];
        r.push(ScoreEntry {
            label: pair.0.clone(),
            command: CommandSpec {
                display: pair.1.display.clone(),
                command: pair.1.command.clone(),
            },
            score: 0,
        });
        i = i + 1;
    }
    r
}

/// Adds `delta` to every entry carrying `label`; an effect whose label is
/// absent from the table is silently dropped.
fn apply_delta(table: &mut Vec<ScoreEntry>, label: &String, delta: i32)
    requires
        forall|j: int|
            0 <= j < old(table)@.len() ==> -0x7fff_ffff_ffff_0000 <= (
            #[trigger] old(table)@[j]).score + delta <= 0x7fff_ffff_ffff_0000,
    ensures
        final(table)@.len() == old(table)@.len(),
        forall|j: int|
            0 <= j < final(table)@.len() ==> {
                &&& (#[trigger] final(table)@[j]).label == old(table)@[j].label
                &&& final(table)@[j].command == old(table)@[j].command
                &&& final(table)@[j].score == old(table)@[j].score + if old(
                    table,
                )@[j].label@ == label@ {
                    delta as int
                } else {
                    0
                }
            },
{
    let mut j: usize = 0;
    while j < table.len()
        invariant
            j <= table@.len(),
            table@.len() == old(table)@.len(),
            forall|t: int|
                j <= t < table@.len() ==> #[trigger] table@[t] == old(table)@[t],
            forall|t: int|
                0 <= t < old(table)@.len() ==> -0x7fff_ffff_ffff_0000 <= (
                #[trigger] old(table)@[t]).score + delta <= 0x7fff_ffff_ffff_0000,
            forall|t: int|
                0 <= t < j ==> {
                    &&& (#[trigger] table@[t]).label == old(table)@[t].label
                    &&& table@[t].command == old(table)@[t].command
                    &&& table@[t].score == old(table)@[t].score + if old(
                        table,
                    )@[t].label@ == label@ {
                        delta as int
                    } else {
                        0
                    }
                },
        decreases table@.len() - j,
    {
        if table[j].label == *label {
            let cur = table[j].score;
            let e = &mut table[j];
            e.score = cur + (delta as i64);
        }
        j = j + 1;
    }
}

/// Evaluates every rule in configuration order and folds the matched
/// rules' effects into a fresh score table.
///
/// `check_results[i]` reports whether rule `i`'s check command exited with
/// status zero; entries at the positions of pattern rules are ignored. A
/// rule whose check command failed to run at all is reported as `false`,
/// so its deltas are never applied.
pub fn compute_scores(config: &Config, text: &str, check_results: &Vec<bool>) -> (r: Vec<
    ScoreEntry,
>)
    requires
        config.wf(),
        check_results@.len() == config.scorers@.len(),
    ensures
        r@.len() == config.commands@.len(),
        forall|i: int|
            0 <= i < r@.len() ==> {
                &&& (#[trigger] r@[i]).label == config.commands@[i].0
                &&& r@[i].command.display == config.commands@[i].1.display
                &&& r@[i].command.command == config.commands@[i].1.command
                &&& r@[i].score == total_score(
                    config.scorers@,
                    check_results@,
                    text@,
                    r@[i].label@,
                )
            },
{
    let mut table = init_score_table(config);
    let mut si: usize = 0;
    proof {
        assert(config.scorers@.take(0) =~= Seq::<Scorer>::empty());
        assert(check_results@.take(0) =~= Seq::<bool>::empty());
    }
    while si < config.scorers.len()
        invariant
            si <= config.scorers@.len(),
            config.wf(),
            check_results@.len() == config.scorers@.len(),
            table@.len() == config.commands@.len(),
            forall|i: int|
                0 <= i < table@.len() ==> {
                    &&& (#[trigger] table@[i]).label == config.commands@[i].0
                    &&& table@[i].command.display == config.commands@[i].1.display
                    &&& table@[i].command.command == config.commands@[i].1.command
                    &&& table@[i].score == total_score(
                        config.scorers@.take(si as int),
                        check_results@.take(si as int),
                        text@,
                        table@[i].label@,
                    )
                },
        decreases config.scorers@.len() - si,
    {
        let scorer = &config.scorers[si];
        let matched = match scorer {
            Scorer::PatternSingle { pattern, .. } => regex_rule_matches(pattern.as_str(), text),
            Scorer::PatternMulti { pattern, .. } => regex_rule_matches(pattern.as_str(), text),
            Scorer::CheckCommandSingle { .. } => check_results[si],
            Scorer::CheckCommandMulti { .. } => check_results[si],
        };
        proof {
            assert(matched == scorer_matches(
                config.scorers@[si as int],
                text@,
                check_results@[si as int],
            ));
        }
        if matched {
            apply_scorer_effects(&mut table, scorer, Ghost(config.scorers@), Ghost(si as int), Ghost(check_results@), Ghost(text@));
        }
        proof {
            assert(config.scorers@.take(si + 1).drop_last() =~= config.scorers@.take(si as int));
            assert(check_results@.take(si + 1).drop_last() =~= check_results@.take(si as int));
            assert(config.scorers@.take(si + 1).last() == config.scorers@[si as int]);
            assert(check_results@.take(si + 1).last() == check_results@[si as int]);
        }
        si = si + 1;
    }
    proof {
        assert(config.scorers@.take(config.scorers@.len() as int) =~= config.scorers@);
        assert(check_results@.take(check_results@.len() as int) =~= check_results@);
    }
    table
}

/// Applies every effect of one matched rule to the table, in effect order.
fn apply_scorer_effects(
    table: &mut Vec<ScoreEntry>,
    scorer: &Scorer,
    Ghost(scorers): Ghost<Seq<Scorer>>,
    Ghost(si): Ghost<int>,
    Ghost(checks): Ghost<Seq<bool>>,
    Ghost(text): Ghost<Seq<char>>,
)
    requires
        0 <= si < scorers.len(),
        checks.len() == scorers.len(),
        scorers[si] == *scorer,
        scorer_matches(*scorer, text, checks[si]),
        effect_count(scorers) <= EFFECT_LIMIT,
        forall|j: int|
            0 <= j < old(table)@.len() ==> (#[trigger] old(table)@[j]).score == total_score(
                scorers.take(si),
                checks.take(si),
                text,
                old(table)@[j].label@,
            ),
    ensures
        final(table)@.len() == old(table)@.len(),
        forall|j: int|
            0 <= j < final(table)@.len() ==> {
                &&& (#[trigger] final(table)@[j]).label == old(table)@[j].label
                &&& final(table)@[j].command == old(table)@[j].command
                &&& final(table)@[j].score == total_score(
                    scorers.take(si + 1),
                    checks.take(si + 1),
                    text,
                    final(table)@[j].label@,
                )
            },
{
    proof {
        lemma_effect_count_prefix(scorers, si);
        lemma_effect_count_prefix(scorers, si + 1);
        assert(scorers.take(si + 1).drop_last() =~= scorers.take(si));
        assert(scorers.take(si + 1).last() == scorers[si]);
        assert(effect_count(scorers.take(si + 1)) == effect_count(scorers.take(si))
            + scorer.effects().len());
    }
    let ghost effects = scorer.effects();
    match scorer {
        Scorer::PatternSingle { target_label, delta, .. } => {
            apply_single(table, target_label, *delta, Ghost(scorers), Ghost(si), Ghost(checks), Ghost(text));
        },
        Scorer::CheckCommandSingle { target_label, delta, .. } => {
            apply_single(table, target_label, *delta, Ghost(scorers), Ghost(si), Ghost(checks), Ghost(text));
        },
        Scorer::PatternMulti { targets, .. } => {
            apply_multi(table, targets, Ghost(scorers), Ghost(si), Ghost(checks), Ghost(text));
        },
        Scorer::CheckCommandMulti { targets, .. } => {
            apply_multi(table, targets, Ghost(scorers), Ghost(si), Ghost(checks), Ghost(text));
        },
    }
}

/// Applies the one effect of a single-target rule.
fn apply_single(
    table: &mut Vec<ScoreEntry>,
    target_label: &String,
    delta: i32,
    Ghost(scorers): Ghost<Seq<Scorer>>,
    Ghost(si): Ghost<int>,
    Ghost(checks): Ghost<Seq<bool>>,
    Ghost(text): Ghost<Seq<char>>,
)
    requires
        0 <= si < scorers.len(),
        checks.len() == scorers.len(),
        scorers[si].effects() =~= seq![(*target_label, delta)],
        scorer_matches(scorers[si], text, checks[si]),
        effect_count(scorers) <= EFFECT_LIMIT,
        forall|j: int|
            0 <= j < old(table)@.len() ==> (#[trigger] old(table)@[j]).score == total_score(
                scorers.take(si),
                checks.take(si),
                text,
                old(table)@[j].label@,
            ),
    ensures
        final(table)@.len() == old(table)@.len(),
        forall|j: int|
            0 <= j < final(table)@.len() ==> {
                &&& (#[trigger] final(table)@[j]).label == old(table)@[j].label
                &&& final(table)@[j].command == old(table)@[j].command
                &&& final(table)@[j].score == total_score(
                    scorers.take(si + 1),
                    checks.take(si + 1),
                    text,
                    final(table)@[j].label@,
                )
            },
{
    proof {
        lemma_effect_count_prefix(scorers, si);
        assert forall|j: int| 0 <= j < old(table)@.len() implies -0x7fff_ffff_ffff_0000 <= (
        #[trigger] old(table)@[j]).score + delta <= 0x7fff_ffff_ffff_0000 by {
            lemma_total_score_bound(scorers.take(si), checks.take(si), text, old(table)@[j].label@);
            assert(effect_count(scorers.take(si)) * DELTA_MAG <= EFFECT_LIMIT * DELTA_MAG);
        }
    }
    apply_delta(table, target_label, delta);
    proof {
        assert(scorers.take(si + 1).drop_last() =~= scorers.take(si));
        assert(checks.take(si + 1).drop_last() =~= checks.take(si));
        assert(scorers.take(si + 1).last() == scorers[si]);
        assert(checks.take(si + 1).last() == checks[si]);
        let effects = scorers[si].effects();
        assert forall|j: int| 0 <= j < final(table)@.len() implies (
        #[trigger] final(table)@[j]).score == total_score(
            scorers.take(si + 1),
            checks.take(si + 1),
            text,
            final(table)@[j].label@,
        ) by {
            let l = final(table)@[j].label@;
            assert(effects.len() == 1);
            assert(effects.last() == (*target_label, delta));
            assert(effects.last().0@ == target_label@);
            assert(effects.drop_last() =~= Seq::<(String, i32)>::empty());
            assert(sum_for_label(effects.drop_last(), l) == 0);
            assert(sum_for_label(effects, l) == if target_label@ == l {
                delta as int
            } else {
                0
            });
        }
    }
}

/// Applies the effects of a multi-target rule, in listed order.
fn apply_multi(
    table: &mut Vec<ScoreEntry>,
    targets: &Vec<(String, i32)>,
    Ghost(scorers): Ghost<Seq<Scorer>>,
    Ghost(si): Ghost<int>,
    Ghost(checks): Ghost<Seq<bool>>,
    Ghost(text): Ghost<Seq<char>>,
)
    requires
        0 <= si < scorers.len(),
        checks.len() == scorers.len(),
        scorers[si].effects() == targets@,
        scorer_matches(scorers[si], text, checks[si]),
        effect_count(scorers) <= EFFECT_LIMIT,
        forall|j: int|
            0 <= j < old(table)@.len() ==> (#[trigger] old(table)@[j]).score == total_score(
                scorers.take(si),
                checks.take(si),
                text,
                old(table)@[j].label@,
            ),
    ensures
        final(table)@.len() == old(table)@.len(),
        forall|j: int|
            0 <= j < final(table)@.len() ==> {
                &&& (#[trigger] final(table)@[j]).label == old(table)@[j].label
                &&& final(table)@[j].command == old(table)@[j].command
                &&& final(table)@[j].score == total_score(
                    scorers.take(si + 1),
                    checks.take(si + 1),
                    text,
                    final(table)@[j].label@,
                )
            },
{
    proof {
        lemma_effect_count_prefix(scorers, si);
        lemma_effect_count_prefix(scorers, si + 1);
        assert(scorers.take(si + 1).drop_last() =~= scorers.take(si));
        assert(scorers.take(si + 1).last() == scorers[si]);
        assert(effect_count(scorers.take(si + 1)) == effect_count(scorers.take(si))
            + targets@.len());
    }
    let ghost base = table@;
    let mut k: usize = 0;
    proof {
        assert(targets@.take(0) =~= Seq::<(String, i32)>::empty());
    }
    while k < targets.len()
        invariant
            k <= targets@.len(),
            0 <= si < scorers.len(),
            checks.len() == scorers.len(),
            scorers[si].effects() == targets@,
            scorer_matches(scorers[si], text, checks[si]),
            effect_count(scorers) <= EFFECT_LIMIT,
            effect_count(scorers.take(si)) + targets@.len() <= EFFECT_LIMIT,
            table@.len() == base.len(),
            forall|j: int|
                0 <= j < base.len() ==> (#[trigger] base[j]).score == total_score(
                    scorers.take(si),
                    checks.take(si),
                    text,
                    base[j].label@,
                ),
            forall|j: int|
                0 <= j < table@.len() ==> {
                    &&& (#[trigger] table@[j]).label == base[j].label
                    &&& table@[j].command == base[j].command
                    &&& table@[j].score == base[j].score + sum_for_label(
                        targets@.take(k as int),
                        table@[j].label@,
                    )
                },
        decreases targets@.len() - k,
    {
        let pair = &targets[k];
        proof {
            assert forall|j: int| 0 <= j < table@.len() implies -0x7fff_ffff_ffff_0000 <= (
            #[trigger] table@[j]).score + pair.1 <= 0x7fff_ffff_ffff_0000 by {
                lemma_total_score_bound(scorers.take(si), checks.take(si), text, base[j].label@);
                lemma_sum_for_label_bound(targets@.take(k as int), table@[j].label@);
                assert(effect_count(scorers.take(si)) * DELTA_MAG + targets@.len() * DELTA_MAG
                    <= EFFECT_LIMIT * DELTA_MAG);
                assert(targets@.take(k as int).len() * DELTA_MAG <= targets@.len() * DELTA_MAG);
            }
        }
        let ghost before = table@;
        apply_delta(table, &pair.0, pair.1);
        proof {
            assert(targets@.take(k + 1).drop_last() =~= targets@.take(k as int));
            assert(targets@.take(k + 1).last() == targets@[k as int]);
        }
        k = k + 1;
    }
    proof {
        assert(targets@.take(targets@.len() as int) =~= targets@);
        assert(checks.take(si + 1).drop_last() =~= checks.take(si));
        assert(checks.take(si + 1).last() == checks[si]);
    }
}

} // verus!
