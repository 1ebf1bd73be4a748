//! The ledger of best times: scores in the order of their times, each
//! once.

use vstd::prelude::*;
use crate::difficulty::Difficulty;
use crate::parse::parse_line;
use crate::score::{parse_line_of, Score};

verus! {

/// `a` comes before `b` in a ledger: it has the shorter time, or the same
/// time and the earlier preset.
pub open spec fn comes_before(a: Score, b: Score) -> bool {
    a.secs < b.secs || (a.secs == b.secs && a.difficulty.rank() < b.difficulty.rank())
}

/// The scores stand in the order of a ledger, none of them twice.
pub open spec fn in_order(scores: Seq<Score>) -> bool {
    forall|i: int, j: int| 0 <= i < j < scores.len() ==> comes_before(scores[i], scores[j])
}

/// `ledger` is the ledger of the scores `items`: it holds just the scores
/// that `items` holds, in the order of a ledger and each once.
pub open spec fn ledger_of(ledger: Seq<Score>, items: Seq<Score>) -> bool {
    &&& in_order(ledger)
    &&& forall|s: Score| ledger.contains(s) <==> items.contains(s)
}

/// The scores of the lines that stand for one, in the order of the lines.
pub open spec fn scores_of(lines: Seq<String>) -> Seq<Score>
    decreases lines.len(),
{
    if lines.len() == 0 {
        Seq::empty()
    } else {
        let before = scores_of(lines.drop_last());
        match parse_line_of(lines.last()@) {
            Some(score) => before.push(score),
            None => before,
        }
    }
}

/// The lines that stand for the scores, in their order.
pub open spec fn lines_of(scores: Seq<Score>) -> Seq<Seq<char>> {
    scores.map_values(|s: Score| s.text())
}

/// The texts of the lines.
pub open spec fn texts(lines: Seq<String>) -> Seq<Seq<char>> {
    lines.map_values(|l: String| l@)
}

/// Whether `a` comes before `b` in a ledger.
pub fn is_before(a: &Score, b: &Score) -> (yes: bool)
    ensures
        yes == comes_before(*a, *b),
{
    a.secs < b.secs || (a.secs == b.secs && a.difficulty.index() < b.difficulty.index())
}

/// Of two scores, one comes before the other or they are the same.
proof fn lemma_order_is_total(a: Score, b: Score)
    ensures
        comes_before(a, b) || comes_before(b, a) || a == b,
        !(comes_before(a, b) && comes_before(b, a)),
        !comes_before(a, a),
{
}

/// Puts a score into a ledger at its place, unless the ledger holds it.
pub fn insert(ledger: &mut Vec<Score>, score: Score)
    requires
        in_order(old(ledger)@),
    ensures
        ledger_of(final(ledger)@, old(ledger)@.push(score)),
{
    let ghost before = ledger@;
    let mut at: usize = 0;
    while at < ledger.len() && is_before(&ledger[at], &score)
        invariant
            at <= ledger.len(),
            ledger@ == before,
            forall|i: int| 0 <= i < at ==> comes_before(before[i], score),
        decreases ledger.len() - at,
    {
        at += 1;
    }
    proof {
        assert forall|s: Score| before.push(score).contains(s) <==> before.contains(s) || s == score by {
            if before.contains(s) {
                let k = choose|k: int| 0 <= k < before.len() && before[k] == s;
                assert(before.push(score)[k] == s);
            }
            if s == score {
                assert(before.push(score)[before.len() as int] == s);
            }
        }
    }
    if at < ledger.len() && ledger[at] == score {
        assert(before.contains(score));
    } else {
        ledger.insert(at, score);
        proof {
            let after = ledger@;
            assert(after =~= before.insert(at as int, score));
            assert forall|i: int, j: int| 0 <= i < j < after.len() implies comes_before(after[i], after[j]) by {
                if at < before.len() {
                    lemma_order_is_total(before[at as int], score);
                }
                if i < at && j == at {
                } else if i == at {
                    assert(after[j] == before[j - 1]);
                    if j - 1 > at {
                        assert(comes_before(before[at as int], before[j - 1]));
                    }
                } else if j < at {
                } else if i < at {
                    assert(after[j] == before[j - 1]);
                } else {
                    assert(after[i] == before[i - 1] && after[j] == before[j - 1]);
                }
            }
            assert forall|s: Score| after.contains(s) <==> before.contains(s) || s == score by {
                if before.contains(s) {
                    let k = choose|k: int| 0 <= k < before.len() && before[k] == s;
                    if k < at {
                        assert(after[k] == s);
                    } else {
                        assert(after[k + 1] == s);
                    }
                }
                if s == score {
                    assert(after[at as int] == s);
                }
                if after.contains(s) {
                    let k = choose|k: int| 0 <= k < after.len() && after[k] == s;
                    if k < at {
                        assert(before[k] == s);
                    } else if k > at {
                        assert(before[k - 1] == s);
                    }
                }
            }
        }
    }
}

/// Puts the scores into the ledger, each at its place.
fn insert_all(ledger: &mut Vec<Score>, scores: &Vec<Score>)
    requires
        in_order(old(ledger)@),
    ensures
        ledger_of(final(ledger)@, old(ledger)@ + scores@),
{
    let ghost before = ledger@;
    let mut at: usize = 0;
    assert(before + scores@.take(0) =~= before);
    while at < scores.len()
        invariant
            at <= scores.len(),
            ledger_of(ledger@, before + scores@.take(at as int)),
        decreases scores.len() - at,
    {
        let ghost held = ledger@;
        let ghost done = before + scores@.take(at as int);
        insert(ledger, scores[at]);
        proof {
            let next = before + scores@.take(at + 1);
            assert(next =~= done.push(scores@[at as int]));
            assert forall|s: Score| ledger@.contains(s) <==> next.contains(s) by {
                lemma_push_contains(held, scores@[at as int], s);
                lemma_push_contains(done, scores@[at as int], s);
            }
        }
        at += 1;
    }
    assert(scores@.take(at as int) =~= scores@);
}

proof fn lemma_push_contains(items: Seq<Score>, score: Score, s: Score)
    ensures
        items.push(score).contains(s) <==> items.contains(s) || s == score,
{
    if items.contains(s) {
        let k = choose|k: int| 0 <= k < items.len() && items[k] == s;
        assert(items.push(score)[k] == s);
    }
    if s == score {
        assert(items.push(score)[items.len() as int] == s);
    }
}

/// The ledger of the scores of both lists: the scores in the order of
/// their times, a score that occurs more than once kept once.
pub fn merge(existing: &Vec<Score>, new_scores: &Vec<Score>) -> (ledger: Vec<Score>)
    ensures
        ledger_of(ledger@, existing@ + new_scores@),
{
    let mut ledger: Vec<Score> = Vec::new();
    insert_all(&mut ledger, existing);
    let ghost first = ledger@;
    insert_all(&mut ledger, new_scores);
    proof {
        assert(Seq::<Score>::empty() + existing@ =~= existing@);
        assert forall|s: Score| ledger@.contains(s) <==> (existing@ + new_scores@).contains(s) by {
            lemma_add_contains(first, new_scores@, s);
            lemma_add_contains(existing@, new_scores@, s);
        }
    }
    ledger
}

proof fn lemma_add_contains(a: Seq<Score>, b: Seq<Score>, s: Score)
    ensures
        (a + b).contains(s) <==> a.contains(s) || b.contains(s),
{
    if a.contains(s) {
        let k = choose|k: int| 0 <= k < a.len() && a[k] == s;
        assert((a + b)[k] == s);
    }
    if b.contains(s) {
        let k = choose|k: int| 0 <= k < b.len() && b[k] == s;
        assert((a + b)[a.len() + k] == s);
    }
    if (a + b).contains(s) {
        let k = choose|k: int| 0 <= k < (a + b).len() && (a + b)[k] == s;
        if k < a.len() {
            assert(a[k] == s);
        } else {
            assert(b[k - a.len()] == s);
        }
    }
}

/// The scores of the preset, in the order of the ledger.
pub fn query(ledger: &Vec<Score>, difficulty: Difficulty) -> (found: Vec<Score>)
    ensures
        found@ == ledger@.filter(|s: Score| s.difficulty == difficulty),
{
    let ghost wanted = |s: Score| s.difficulty == difficulty;
    let mut found: Vec<Score> = Vec::new();
    let mut at: usize = 0;
    assert(ledger@.take(0) =~= Seq::empty());
    proof {
        reveal(Seq::filter);
    }
    while at < ledger.len()
        invariant
            at <= ledger.len(),
            wanted == |s: Score| s.difficulty == difficulty,
            found@ == ledger@.take(at as int).filter(wanted),
        decreases ledger.len() - at,
    {
        proof {
            reveal(Seq::filter);
            assert(ledger@.take(at + 1).drop_last() =~= ledger@.take(at as int));
        }
        if ledger[at].difficulty == difficulty {
            found.push(ledger[at]);
        }
        at += 1;
    }
    assert(ledger@.take(at as int) =~= ledger@);
    found
}

/// The scores that the lines of the ledger's file stand for, in the order
/// of the lines; a line that stands for none is passed over. Nothing where
/// no line stands for a score.
pub fn read_leaderboard(lines: &Vec<String>) -> (scores: Option<Vec<Score>>)
    ensures
        scores is Some <==> scores_of(lines@).len() > 0,
        scores is Some ==> scores.unwrap()@ == scores_of(lines@),
{
    let mut scores: Vec<Score> = Vec::new();
    let mut at: usize = 0;
    assert(lines@.take(0) =~= Seq::empty());
    while at < lines.len()
        invariant
            at <= lines.len(),
            scores@ == scores_of(lines@.take(at as int)),
        decreases lines.len() - at,
    {
        assert(lines@.take(at + 1).drop_last() =~= lines@.take(at as int));
        let score = parse_line(lines[at].as_str());
        if let Some(score) = score {
            scores.push(score);
        }
        at += 1;
    }
    assert(lines@.take(at as int) =~= lines@);
    if scores.len() == 0 {
        None
    } else {
        Some(scores)
    }
}

/// The lines of the ledger's file once `leaderboard` is written to it:
/// those of the ledger of the scores that the file holds and of those of
/// `leaderboard`.
pub fn write_leaderboard(existing: Option<Vec<Score>>, leaderboard: &Vec<Score>) -> (lines: Vec<String>)
    ensures
        exists|ledger: Seq<Score>|
            {
                &&& ledger_of(ledger, (match existing {
                    Some(held) => held@,
                    None => Seq::empty(),
                }) + leaderboard@)
                &&& #[trigger] lines_of(ledger) == texts(lines@)
            },
{
    let held = match existing {
        Some(held) => held,
        None => Vec::new(),
    };
    let ledger = merge(&held, leaderboard);
    let mut lines: Vec<String> = Vec::new();
    let mut at: usize = 0;
    while at < ledger.len()
        invariant
            at <= ledger.len(),
            texts(lines@) == lines_of(ledger@.take(at as int)),
        decreases ledger.len() - at,
    {
        let ghost before = texts(lines@);
        lines.push(ledger[at].as_string());
        proof {
            assert(texts(lines@) =~= before.push(ledger@[at as int].text()));
            assert(lines_of(ledger@.take(at + 1)) =~= lines_of(ledger@.take(at as int)).push(
                ledger@[at as int].text(),
            ));
        }
        at += 1;
    }
    proof {
        assert(ledger@.take(at as int) =~= ledger@);
        assert(lines_of(ledger@) == texts(lines@));
    }
    lines
}

/// Two ledgers of the same scores are the same.
pub proof fn ledger_is_unique(a: Seq<Score>, b: Seq<Score>, items: Seq<Score>)
    requires
        ledger_of(a, items),
        ledger_of(b, items),
    ensures
        a == b,
    decreases a.len(),
{
    if a.len() == 0 {
        if b.len() > 0 {
            assert(b.contains(b[0]));
            assert(a.contains(b[0]));
        }
        assert(a =~= b);
    } else {
        assert(a.contains(a[0]));
        assert(b.contains(a[0]));
        let k = choose|k: int| 0 <= k < b.len() && b[k] == a[0];
        assert(b.contains(b[0]));
        assert(a.contains(b[0]));
        let m = choose|m: int| 0 <= m < a.len() && a[m] == b[0];
        lemma_order_is_total(a[0], b[0]);
        assert(k == 0);
        let a1 = a.skip(1);
        let b1 = b.skip(1);
        assert forall|s: Score| a1.contains(s) <==> b1.contains(s) by {
            if a1.contains(s) {
                let i = choose|i: int| 0 <= i < a1.len() && a1[i] == s;
                assert(a[i + 1] == s);
                assert(comes_before(a[0], s));
                assert(a.contains(s));
                assert(b.contains(s));
                let j = choose|j: int| 0 <= j < b.len() && b[j] == s;
                lemma_order_is_total(a[0], s);
                assert(j > 0);
                assert(b1[j - 1] == s);
            }
            if b1.contains(s) {
                let i = choose|i: int| 0 <= i < b1.len() && b1[i] == s;
                assert(b[i + 1] == s);
                assert(comes_before(b[0], s));
                assert(b.contains(s));
                assert(a.contains(s));
                let j = choose|j: int| 0 <= j < a.len() && a[j] == s;
                lemma_order_is_total(b[0], s);
                assert(j > 0);
                assert(a1[j - 1] == s);
            }
        }
        assert(in_order(a1)) by {
            assert forall|i: int, j: int| 0 <= i < j < a1.len() implies comes_before(a1[i], a1[j]) by {
                assert(a1[i] == a[i + 1] && a1[j] == a[j + 1]);
            }
        }
        assert(in_order(b1)) by {
            assert forall|i: int, j: int| 0 <= i < j < b1.len() implies comes_before(b1[i], b1[j]) by {
                assert(b1[i] == b[i + 1] && b1[j] == b[j + 1]);
            }
        }
        ledger_is_unique(a1, b1, a1);
        assert(a =~= seq![a[0]] + a1);
        assert(b =~= seq![b[0]] + b1);
    }
}

/// Merging a ledger with itself, or with nothing, gives the ledger again;
/// and merging twice what was merged once changes nothing.
pub proof fn merge_is_idempotent(ledger: Seq<Score>, items: Seq<Score>, again: Seq<Score>)
    requires
        ledger_of(ledger, items),
    ensures
        ledger_of(again, ledger + ledger) ==> again == ledger,
        ledger_of(again, ledger + Seq::empty()) ==> again == ledger,
        ledger_of(again, ledger + items) ==> again == ledger,
        ledger_of(again, items + items) ==> again == ledger,
{
    assert forall|s: Score|
        ((ledger + ledger).contains(s) <==> ledger.contains(s)) && ((ledger + Seq::empty()).contains(s)
            <==> ledger.contains(s)) && ((ledger + items).contains(s) <==> ledger.contains(s)) && ((items
            + items).contains(s) <==> ledger.contains(s)) by {
        lemma_add_contains(ledger, ledger, s);
        lemma_add_contains(ledger, Seq::empty(), s);
        lemma_add_contains(ledger, items, s);
        lemma_add_contains(items, items, s);
    }
    if ledger_of(again, ledger + ledger) {
        assert(ledger_of(ledger, ledger + ledger));
        ledger_is_unique(again, ledger, ledger + ledger);
    }
    if ledger_of(again, ledger + Seq::empty()) {
        assert(ledger_of(ledger, ledger + Seq::empty()));
        ledger_is_unique(again, ledger, ledger + Seq::empty());
    }
    if ledger_of(again, ledger + items) {
        assert(ledger_of(ledger, ledger + items));
        ledger_is_unique(again, ledger, ledger + items);
    }
    if ledger_of(again, items + items) {
        assert(ledger_of(ledger, items + items));
        ledger_is_unique(again, ledger, items + items);
    }
}

} // verus!
