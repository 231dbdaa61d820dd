//! Ranking and decision: restricts the score table to strictly positive
//! scores, sorts it into a deterministic order, and applies the threshold
//! policy that chooses between doing nothing, launching the top candidate,
//! and asking the user.

use vstd::prelude::*;
use vstd::multiset::Multiset;
use crate::config::CommandSpec;
use crate::score::ScoreEntry;
use crate::text::{lex_lt, str_lex_lt, lemma_lex_lt_trans, lemma_lex_lt_connected,
    lemma_lex_lt_irrefl, lemma_lex_le_trans};

verus! {

/// Hard score floor in the multi-candidate auto-select branch, independent
/// of the configured thresholds.
pub const AUTO_SELECT_FLOOR: i64 = 10;

/// `a` ranks strictly before `b`: higher score first, equal scores ordered
/// by lexicographically smaller label.
pub open spec fn rank_before(a: ScoreEntry, b: ScoreEntry) -> bool {
    a.score > b.score || (a.score == b.score && lex_lt(a.label@, b.label@))
}

/// `a` ranks no later than `b`.
pub open spec fn rank_le(a: ScoreEntry, b: ScoreEntry) -> bool {
    !rank_before(b, a)
}

/// Pairwise distinct candidate labels.
pub open spec fn labels_unique_in(s: Seq<ScoreEntry>) -> bool {
    forall|i: int, j: int|
        0 <= i < j < s.len() ==> (#[trigger] s[i]).label@ != (#[trigger] s[j]).label@
}

/// The subsequence of entries with strictly positive score, in table
/// order.
pub open spec fn positives(s: Seq<ScoreEntry>) -> Seq<ScoreEntry>
    decreases s.len(),
{
    if s.len() == 0 {
        Seq::empty()
    } else if s.last().score > 0 {
        positives(s.drop_last()).push(s.last())
    } else {
        positives(s.drop_last())
    }
}

/// Ranking never places `b` before `a` and `a` before `b` at once.
pub proof fn lemma_rank_asym(a: ScoreEntry, b: ScoreEntry)
    ensures
        !(rank_before(a, b) && rank_before(b, a)),
{
    if rank_before(a, b) && rank_before(b, a) {
        lemma_lex_lt_trans(a.label@, b.label@, a.label@);
        lemma_lex_lt_irrefl(a.label@);
    }
}

/// Ranking decides every pair of entries with distinct labels one way or
/// the other: it is a strict total order on a table with unique labels.
/// Of two entries with equal score, the one with the lexicographically
/// smaller label ranks first; of two with unequal scores, the higher
/// score ranks first.
pub proof fn lemma_rank_strict_total(a: ScoreEntry, b: ScoreEntry)
    requires
        a.label@ != b.label@,
    ensures
        rank_before(a, b) || rank_before(b, a),
        !(rank_before(a, b) && rank_before(b, a)),
        a.score == b.score ==> (rank_before(a, b) <==> lex_lt(a.label@, b.label@)),
        a.score != b.score ==> (rank_before(a, b) <==> a.score > b.score),
{
    lemma_lex_lt_connected(a.label@, b.label@);
    lemma_rank_asym(a, b);
}

/// `rank_le` is transitive.
pub proof fn lemma_rank_le_trans(a: ScoreEntry, b: ScoreEntry, c: ScoreEntry)
    requires
        rank_le(a, b),
        rank_le(b, c),
    ensures
        rank_le(a, c),
{
    if a.score == b.score && b.score == c.score {
        lemma_lex_le_trans(a.label@, b.label@, c.label@);
    }
}

/// Strict rank order is also transitive.
pub proof fn lemma_rank_before_trans(a: ScoreEntry, b: ScoreEntry, c: ScoreEntry)
    requires
        rank_before(a, b),
        rank_before(b, c),
    ensures
        rank_before(a, c),
{
    if a.score == b.score && b.score == c.score {
        lemma_lex_lt_trans(a.label@, b.label@, c.label@);
    }
}

/// Executable comparison deciding [`rank_le`].
fn ranked_le(a: &ScoreEntry, b: &ScoreEntry) -> (r: bool)
    ensures
        r == rank_le(*a, *b),
{
    if a.score != b.score {
        a.score > b.score
    } else {
        !str_lex_lt(b.label.as_str(), a.label.as_str())
    }
}

/// Clones one row of the score table.
fn clone_entry(e: &ScoreEntry) -> (r: ScoreEntry)
    ensures
        r == *e,
{
    let r = ScoreEntry {
        label: e.label.clone(),
        command: CommandSpec {
            display: e.command.display.clone(),
            command: e.command.command.clone(),
        },
        score: e.score,
    };
    proof {
        assert(r.command == e.command);
    }
    r
}

/// Everything [`positives`] keeps has positive score and comes from the
/// table.
proof fn lemma_positives_props(s: Seq<ScoreEntry>)
    ensures
        forall|x: ScoreEntry| #[trigger]
            positives(s).contains(x) ==> x.score > 0 && s.contains(x),
    decreases s.len(),
{
    if s.len() > 0 {
        lemma_positives_props(s.drop_last());
        assert forall|x: ScoreEntry| #[trigger] positives(s).contains(x) implies x.score > 0
            && s.contains(x) by {
            let ps = positives(s);
            let pd = positives(s.drop_last());
            let t = choose|t: int| 0 <= t < ps.len() && ps[t] == x;
            if s.last().score > 0 && t == ps.len() - 1 {
                assert(x == s.last());
                assert(s.contains(x)) by {
                    assert(s[s.len() - 1] == x);
                }
            } else {
                assert(pd[t] == x);
                assert(pd.contains(x)) by {
                    assert(pd[t] == x);
                }
                let u = choose|u: int| 0 <= u < s.drop_last().len() && s.drop_last()[u] == x;
                assert(s.contains(x)) by {
                    assert(s[u] == x);
                }
            }
        }
    }
}

/// With unique table labels, [`positives`] keeps the labels unique.
proof fn lemma_positives_unique(s: Seq<ScoreEntry>)
    requires
        labels_unique_in(s),
    ensures
        labels_unique_in(positives(s)),
        positives(s).no_duplicates(),
    decreases s.len(),
{
    broadcast use vstd::seq_lib::group_seq_properties;

    if s.len() > 0 {
        assert(labels_unique_in(s.drop_last()));
        lemma_positives_unique(s.drop_last());
        lemma_positives_props(s.drop_last());
        if s.last().score > 0 {
            let pd = positives(s.drop_last());
            let p = pd.push(s.last());
            assert forall|i: int, j: int| 0 <= i < j < p.len() implies (#[trigger] p[i]).label@
                != (#[trigger] p[j]).label@ by {
                if j == p.len() - 1 {
                    assert(pd.contains(pd[i])) by {
                        assert(pd[i] == pd[i]);
                    }
                    let t = choose|t: int|
                        0 <= t < s.drop_last().len() && s.drop_last()[t] == pd[i];
                    assert(s[t] == pd[i]);
                    assert(s[t].label@ != s[s.len() - 1].label@);
                }
            }
            assert(p.no_duplicates()) by {
                assert forall|i: int, j: int|
                    0 <= i < p.len() && 0 <= j < p.len() && i != j implies p[i] != p[j] by {
                    if i < j {
                        assert(p[i].label@ != p[j].label@);
                    } else {
                        assert(p[j].label@ != p[i].label@);
                    }
                }
            }
        }
    }
}

/// Clones the positive-score rows out of the table, in order.
fn positive_entries(table: &Vec<ScoreEntry>) -> (r: Vec<ScoreEntry>)
    ensures
        r@ == positives(table@),
{
    let mut r: Vec<ScoreEntry> = Vec::new();
    let mut i: usize = 0;
    proof {
        assert(table@.take(0) =~= Seq::<ScoreEntry>::empty());
    }
    while i < table.len()
        invariant
            i <= table@.len(),
            r@ == positives(table@.take(i as int)),
        decreases table@.len() - i,
    {
        proof {
            assert(table@.take(i + 1).drop_last() =~= table@.take(i as int));
            assert(table@.take(i + 1).last() == table@[i as int]);
        }
        if table[i].score > 0 {
            r.push(clone_entry(&table[i]));
        }
        i = i + 1;
    }
    proof {
        assert(table@.take(table@.len() as int) =~= table@);
    }
    r
}

/// Inserting an element anywhere adds exactly it to the sequence's
/// multiset.
proof fn lemma_to_multiset_insert(s: Seq<ScoreEntry>, p: int, x: ScoreEntry)
    requires
        0 <= p <= s.len(),
    ensures
        s.insert(p, x).to_multiset() =~= s.to_multiset().insert(x),
{
    broadcast use vstd::seq_lib::group_to_multiset_ensures;
    broadcast use vstd::multiset::group_multiset_axioms;

    let a = s.take(p);
    let b = s.skip(p);
    assert(s =~= a + b);
    assert(s.insert(p, x) =~= a + (seq![x] + b));
    vstd::seq_lib::lemma_multiset_commutative(a, b);
    vstd::seq_lib::lemma_multiset_commutative(a, seq![x] + b);
    vstd::seq_lib::lemma_multiset_commutative(seq![x], b);
    assert(seq![x] =~= Seq::<ScoreEntry>::empty().push(x));
    assert forall|y: ScoreEntry| Seq::<ScoreEntry>::empty().to_multiset().count(y) == 0 by {
        assert(!Seq::<ScoreEntry>::empty().contains(y));
    }
    assert(seq![x].to_multiset() =~= Multiset::<ScoreEntry>::empty().insert(x));
}

/// Sorts the list in place: descending score, ties broken by ascending
/// label.
fn sort_entries(v: &mut Vec<ScoreEntry>)
    ensures
        final(v)@.to_multiset() == old(v)@.to_multiset(),
        final(v)@.len() == old(v)@.len(),
        forall|x: int, y: int|
            0 <= x < y < final(v)@.len() ==> rank_le(
                #[trigger] final(v)@[x],
                #[trigger] final(v)@[y],
            ),
{
    broadcast use vstd::seq_lib::group_to_multiset_ensures;
    broadcast use vstd::multiset::group_multiset_axioms;

    let ghost orig = v@;
    let mut i: usize = 1;
    while i < v.len()
        invariant
            i >= 1,
            v@.len() == orig.len(),
            v@.to_multiset() == orig.to_multiset(),
            forall|x: int, y: int|
                0 <= x < y < i && y < v@.len() ==> rank_le(#[trigger] v@[x], #[trigger] v@[y]),
        decreases v@.len() - i,
    {
        let ghost s = v@;
        let e = v.remove(i);
        proof {
            assert(forall|t: int| 0 <= t < i ==> #[trigger] v@[t] == s[t]);
        }
        let mut p: usize = i;
        while p > 0 && !ranked_le(&v[p - 1], &e)
            invariant
                p <= i,
                i < s.len(),
                v@ == s.remove(i as int),
                e == s[i as int],
                forall|t: int| 0 <= t < i ==> #[trigger] v@[t] == s[t],
                forall|t: int| p <= t < i ==> rank_before(e, #[trigger] v@[t]),
            decreases p,
        {
            p = p - 1;
        }
        v.insert(p, e);
        proof {
            broadcast use vstd::seq_lib::group_to_multiset_ensures;
            broadcast use vstd::multiset::group_multiset_axioms;

            let rm = s.remove(i as int);
            rm.insert_ensures(p as int, e);
            // multiset preserved: removing then re-inserting the same element
            assert(s.to_multiset().count(e) > 0) by {
                assert(s.contains(e)) by {
                    assert(s[i as int] == e);
                }
            }
            lemma_to_multiset_insert(rm, p as int, e);
            assert(v@.to_multiset() =~= s.to_multiset());
            // the new prefix of length i + 1 is sorted
            assert forall|x: int, y: int|
                0 <= x < y < i + 1 && y < v@.len() implies rank_le(
                #[trigger] v@[x],
                #[trigger] v@[y],
            ) by {
                let px = p as int;
                if p > 0 {
                    assert(rank_le(v@[px - 1], e));
                }
                if y < px {
                    assert(v@[x] == s[x] && v@[y] == s[y]);
                } else if y == px {
                    assert(v@[y] == e);
                    assert(v@[x] == s[x]);
                    if x < px - 1 {
                        assert(rank_le(s[x], s[px - 1]));
                        lemma_rank_le_trans(s[x], s[px - 1], e);
                    }
                } else {
                    assert(v@[y] == s[y - 1]);
                    assert(rank_before(e, s[y - 1]));
                    lemma_rank_asym(e, s[y - 1]);
                    if x == px {
                        assert(v@[x] == e);
                    } else if x < px {
                        assert(v@[x] == s[x]);
                        if x == px - 1 {
                            lemma_rank_le_trans(s[x], e, s[y - 1]);
                        } else {
                            assert(rank_le(s[x], s[px - 1]));
                            lemma_rank_le_trans(s[x], s[px - 1], e);
                            lemma_rank_le_trans(s[x], e, s[y - 1]);
                        }
                    } else {
                        assert(v@[x] == s[x - 1]);
                        assert(x - 1 < y - 1 < i);
                        if x - 1 == y - 1 {
                        } else {
                            assert(rank_le(s[x - 1], s[y - 1]));
                        }
                    }
                }
            }
        }
        i = i + 1;
    }
}

/// Builds the ranked shortlist: the positive-score candidates, sorted by
/// descending score with ties broken by ascending label. With unique
/// table labels the resulting order is strict, hence deterministic and
/// reproducible for identical input.
pub fn rank_candidates(table: &Vec<ScoreEntry>) -> (r: Vec<ScoreEntry>)
    requires
        labels_unique_in(table@),
    ensures
        r@.to_multiset() == positives(table@).to_multiset(),
        forall|t: int| 0 <= t < r@.len() ==> (#[trigger] r@[t]).score > 0,
        forall|x: int, y: int|
            0 <= x < y < r@.len() ==> rank_before(#[trigger] r@[x], #[trigger] r@[y]),
{
    broadcast use vstd::seq_lib::group_to_multiset_ensures;
    broadcast use vstd::multiset::group_multiset_axioms;

    let mut r = positive_entries(table);
    sort_entries(&mut r);
    proof {
        let pos = positives(table@);
        lemma_positives_props(table@);
        lemma_positives_unique(table@);
        pos.lemma_multiset_has_no_duplicates();
        r@.lemma_multiset_has_no_duplicates_conv();
        assert forall|t: int| 0 <= t < r@.len() implies (#[trigger] r@[t]).score > 0 by {
            assert(r@.contains(r@[t])) by {
                assert(r@[t] == r@[t]);
            }
            assert(pos.to_multiset().count(r@[t]) > 0);
            assert(pos.contains(r@[t]));
        }
        assert forall|x: int, y: int| 0 <= x < y < r@.len() implies rank_before(
            #[trigger] r@[x],
            #[trigger] r@[y],
        ) by {
            assert(r@.contains(r@[x]) && r@.contains(r@[y])) by {
                assert(r@[x] == r@[x] && r@[y] == r@[y]);
            }
            assert(pos.to_multiset().count(r@[x]) > 0 && pos.to_multiset().count(r@[y]) > 0);
            assert(pos.contains(r@[x]) && pos.contains(r@[y]));
            if r@[x].label@ == r@[y].label@ {
                // two positions in the shortlist sharing a label would need
                // two distinct positive entries with that label
                assert(r@[x] != r@[y]);
                let u = choose|u: int| 0 <= u < pos.len() && pos[u] == r@[x];
                let w = choose|w: int| 0 <= w < pos.len() && pos[w] == r@[y];
                assert(u != w);
                if u < w {
                    assert(pos[u].label@ != pos[w].label@);
                } else {
                    assert(pos[w].label@ != pos[u].label@);
                }
            } else {
                lemma_rank_strict_total(r@[x], r@[y]);
                assert(rank_le(r@[x], r@[y]));
            }
        }
    }
    r
}

/// Whether the threshold policy launches the top candidate without asking:
/// a lone candidate must beat the lower threshold; a leading candidate
/// must beat the runner-up by more than the upper threshold and clear the
/// hard floor besides.
pub open spec fn auto_select_spec(l: Seq<ScoreEntry>, min: int, max: int) -> bool {
    ||| (l.len() == 1 && l[0].score > min)
    ||| (l.len() >= 2 && l[0].score > max + l[1].score && l[0].score > AUTO_SELECT_FLOOR)
}

/// Raising the lone-candidate threshold never turns a non-auto outcome
/// into an auto-select, and lowering it never turns an auto-select into
/// an interactive outcome.
pub proof fn lemma_threshold_monotonic(
    l: Seq<ScoreEntry>,
    min_lowered: int,
    min_raised: int,
    max: int,
)
    requires
        l.len() == 1,
        min_lowered <= min_raised,
    ensures
        auto_select_spec(l, min_raised, max) ==> auto_select_spec(l, min_lowered, max),
{
}

/// What the run does after ranking.
pub enum Outcome {
    /// Nothing scored positive: the run ends without launching anything.
    NoOp,
    /// Launch this candidate without asking.
    AutoSelect(ScoreEntry),
    /// Present the ranked shortlist and let the user choose.
    Interactive(Vec<ScoreEntry>),
}

/// Applies the threshold policy to the ranked shortlist.
pub fn decide(ranked: Vec<ScoreEntry>, min_threshold: i32, max_threshold: i32) -> (r: Outcome)
    ensures
        (r is NoOp) <==> ranked@.len() == 0,
        (r is AutoSelect) <==> auto_select_spec(
            ranked@,
            min_threshold as int,
            max_threshold as int,
        ),
        (r matches Outcome::AutoSelect(e) ==> e == ranked@[0]),
        (r is Interactive) <==> (ranked@.len() > 0 && !auto_select_spec(
            ranked@,
            min_threshold as int,
            max_threshold as int,
        )),
        (r matches Outcome::Interactive(l) ==> l == ranked),
{
    if ranked.len() == 0 {
        return Outcome::NoOp;
    }
    let auto = if ranked.len() == 1 {
        ranked[0].score > min_threshold as i64
    } else {
        (ranked[0].score as i128) > (max_threshold as i128) + (ranked[1].score as i128)
            && ranked[0].score > AUTO_SELECT_FLOOR
    };
    if auto {
        Outcome::AutoSelect(clone_entry(&ranked[0]))
    } else {
        Outcome::Interactive(ranked)
    }
}

/// Resolves the display string chosen in the menu back to the candidate it
/// belongs to: the first shortlist entry whose `display` matches exactly.
/// `None` means no selection, and the run ends without launching.
pub fn resolve_selection(ranked: &Vec<ScoreEntry>, selected_display: &String) -> (r: Option<
    usize,
>)
    ensures
        match r {
            Some(i) => {
                &&& i < ranked@.len()
                &&& ranked@[i as int].command.display@ == selected_display@
                &&& forall|j: int|
                    0 <= j < i ==> (#[trigger] ranked@[j]).command.display@ != selected_display@
            },
            None => forall|j: int|
                0 <= j < ranked@.len() ==> (#[trigger] ranked@[j]).command.display@
                    != selected_display@,
        },
{
    let mut i: usize = 0;
    while i < ranked.len()
        invariant
            i <= ranked@.len(),
            forall|j: int|
                0 <= j < i ==> (#[trigger] ranked@[j]).command.display@ != selected_display@,
        decreases ranked@.len() - i,
    {
        if ranked[i].command.display == *selected_display {
            return Some(i);
        }
        i = i + 1;
    }
    None
}

} // verus!
