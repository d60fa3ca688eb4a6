use vstd::prelude::*;
use crate::text::chars_of;

verus! {

/// Edit distance between the first `i` characters of `a` and the first `j`
/// characters of `b`, by the Wagner–Fischer recurrence: a matching pair of
/// characters costs nothing, otherwise the cheapest of a deletion, a
/// substitution and an insertion is taken, plus one.
pub open spec fn edit_distance_prefix(a: Seq<char>, b: Seq<char>, i: nat, j: nat) -> nat
    decreases i, j,
{
    if i == 0 {
        j
    } else if j == 0 {
        i
    } else if a[i - 1] == b[j - 1] {
        edit_distance_prefix(a, b, (i - 1) as nat, (j - 1) as nat)
    } else {
        1 + min3(
            edit_distance_prefix(a, b, (i - 1) as nat, j),
            edit_distance_prefix(a, b, (i - 1) as nat, (j - 1) as nat),
            edit_distance_prefix(a, b, i, (j - 1) as nat),
        )
    }
}

pub open spec fn min3(x: nat, y: nat, z: nat) -> nat {
    let m = if x <= y { x } else { y };
    if m <= z { m } else { z }
}

/// The Levenshtein distance between the character sequences `a` and `b`.
pub open spec fn edit_distance(a: Seq<char>, b: Seq<char>) -> nat {
    edit_distance_prefix(a, b, a.len(), b.len())
}

proof fn lemma_edit_distance_bounded(a: Seq<char>, b: Seq<char>, i: nat, j: nat)
    ensures
        edit_distance_prefix(a, b, i, j) <= if i <= j { j } else { i },
    decreases i, j,
{
    if i > 0 && j > 0 {
        lemma_edit_distance_bounded(a, b, (i - 1) as nat, (j - 1) as nat);
        lemma_edit_distance_bounded(a, b, (i - 1) as nat, j);
        lemma_edit_distance_bounded(a, b, i, (j - 1) as nat);
    }
}

/// Levenshtein distance of `a` and `b`, over their characters, computed
/// with a single cost row sized by the characters of `b`.
pub fn levenshtein(a: &str, b: &str) -> (r: usize)
    ensures
        r == edit_distance(a@, b@),
{
    let av = chars_of(a);
    let bv = chars_of(b);
    let nb = bv.len();
    let na = av.len();
    let mut costs: Vec<usize> = Vec::new();
    let mut k: usize = 0;
    while k < nb
        invariant
            k <= nb,
            costs@.len() == k,
            forall|t: int| 0 <= t < k ==> costs@[t] == t,
        decreases nb - k,
    {
        costs.push(k);
        k = k + 1;
    }
    costs.push(nb);
    let mut i: usize = 0;
    while i < na
        invariant
            na == av@.len(),
            av@ == a@,
            bv@ == b@,
            nb == bv@.len(),
            costs@.len() == nb + 1,
            i <= av@.len(),
            forall|t: int| 0 <= t <= nb ==> costs@[t] == edit_distance_prefix(a@, b@, i as nat, t as nat),
        decreases na - i,
    {
        let ca = av[i];
        let mut last_cost: usize = i;
        costs.set(0, i + 1);
        let mut j: usize = 0;
        while j < bv.len()
            invariant
                av@ == a@,
                bv@ == b@,
                nb == bv@.len(),
                costs@.len() == nb + 1,
                na == av@.len(),
                i < na,
                ca == a@[i as int],
                j <= nb,
                last_cost == edit_distance_prefix(a@, b@, i as nat, j as nat),
                forall|t: int| 0 <= t <= j ==> costs@[t] == edit_distance_prefix(a@, b@, (i + 1) as nat, t as nat),
                forall|t: int| j < t <= nb ==> costs@[t] == edit_distance_prefix(a@, b@, i as nat, t as nat),
                decreases nb - j,
        {
            let cb = bv[j];
            let current_cost = costs[j + 1];
            if ca == cb {
                costs.set(j + 1, last_cost);
            } else {
                proof {
                    lemma_edit_distance_bounded(a@, b@, i as nat, j as nat);
                }
                let m1 = if current_cost <= last_cost { current_cost } else { last_cost };
                let m2 = if m1 <= costs[j] { m1 } else { costs[j] };
                costs.set(j + 1, 1 + m2);
            }
            last_cost = current_cost;
            j = j + 1;
        }
        i = i + 1;
    }
    costs[nb]
}

/// Whether two lines are within `threshold` edits of each other.
pub fn is_similar(line1: &str, line2: &str, threshold: usize) -> (r: bool)
    ensures
        r == (edit_distance(line1@, line2@) <= threshold),
{
    let distance = levenshtein(line1, line2);
    distance <= threshold
}

} // verus!
