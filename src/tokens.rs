use vstd::prelude::*;
use crate::freq_table::{add_counts, count_of, merge_models, FrequencyTable};

verus! {

/// Whether the regular expression `p` compiles.
pub uninterp spec fn pattern_compiles(p: Seq<char>) -> bool;

/// For each successive non-overlapping match of the regular expression `p` in
/// `text`, what its first capture group matched (nothing where the pattern has
/// no first group or the group did not take part in that match).
pub uninterp spec fn first_group_matches(p: Seq<char>, text: Seq<char>) -> Seq<Option<Seq<char>>>;

/// The view of an optional token.
pub open spec fn token_view(t: Option<String>) -> Option<Seq<char>> {
    match t {
        Some(s) => Some(s@),
        None => None,
    }
}

/// Relies on `regex::Regex::new` (whether the pattern compiles) and
/// `regex::Regex::captures_iter` with `Captures::get(1)` (the first group of
/// each match, left to right).
#[verifier::external_body]
fn regex_first_groups(pattern: &str, text: &str) -> (r: Option<Vec<Option<String>>>)
    ensures
        r is Some <==> pattern_compiles(pattern@),
        r matches Some(v) ==> v@.map_values(|t: Option<String>| token_view(t)) == first_group_matches(
            pattern@,
            text@,
        ),
{
    match regex::Regex::new(pattern) {
        Ok(re) => Some(
            re.captures_iter(text).map(|c| c.get(1).map(|m| m.as_str().to_string())).collect(),
        ),
        Err(_) => None,
    }
}

/// The tokens of `text` under `pattern`: the first-group matches, or nothing
/// when the pattern does not compile.
pub fn tokenize(pattern: &String, text: &String) -> (r: Option<Vec<Option<String>>>)
    ensures
        r is Some <==> pattern_compiles(pattern@),
        r matches Some(v) ==> v@.map_values(|t: Option<String>| token_view(t)) == first_group_matches(
            pattern@,
            text@,
        ),
{
    regex_first_groups(pattern.as_str(), text.as_str())
}

/// A table model after counting each present token of `toks` once more.
pub open spec fn tally(m: Map<Seq<char>, u64>, toks: Seq<Option<Seq<char>>>) -> Map<Seq<char>, u64>
    decreases toks.len(),
{
    if toks.len() == 0 {
        m
    } else {
        let prev = tally(m, toks.drop_last());
        match toks.last() {
            Some(k) => prev.insert(k, add_counts(count_of(prev, k), 1)),
            None => prev,
        }
    }
}

/// Number of times `k` occurs among the tokens.
pub open spec fn occurrences(toks: Seq<Option<Seq<char>>>, k: Seq<char>) -> nat
    decreases toks.len(),
{
    if toks.len() == 0 {
        0
    } else {
        occurrences(toks.drop_last(), k) + if toks.last() == Some(k) {
            1nat
        } else {
            0nat
        }
    }
}

/// A count capped at `u64::MAX`.
pub open spec fn capped(n: int) -> u64 {
    if n > u64::MAX {
        u64::MAX
    } else {
        n as u64
    }
}

impl FrequencyTable {
    /// Counts every present token once.
    pub fn add_tokens(&mut self, toks: &Vec<Option<String>>)
        requires
            old(self).wf(),
        ensures
            final(self).wf(),
            final(self)@ == tally(old(self)@, toks@.map_values(|t: Option<String>| token_view(t))),
    {
        let ghost vs = toks@.map_values(|t: Option<String>| token_view(t));
        let mut i: usize = 0;
        while i < toks.len()
            invariant
                self.wf(),
                i <= toks@.len(),
                vs == toks@.map_values(|t: Option<String>| token_view(t)),
                self@ == tally(old(self)@, vs.take(i as int)),
            decreases toks@.len() - i,
        {
            proof {
                assert(vs.take(i + 1).drop_last() == vs.take(i as int));
            }
            match &toks[i] {
                Some(k) => self.add_count(k, 1),
                None => {},
            }
            i += 1;
        }
        proof {
            assert(vs.take(toks@.len() as int) == vs);
        }
    }
}

/// Counting tokens gives each token its number of occurrences, capped at
/// `u64::MAX`, and holds exactly the tokens that occur.
pub proof fn lemma_tally_counts(toks: Seq<Option<Seq<char>>>, k: Seq<char>)
    ensures
        count_of(tally(Map::empty(), toks), k) == capped(occurrences(toks, k) as int),
        tally(Map::empty(), toks).contains_key(k) <==> occurrences(toks, k) > 0,
    decreases toks.len(),
{
    if toks.len() > 0 {
        lemma_tally_counts(toks.drop_last(), k);
    }
}

/// Counting two token sequences into two tables and merging them gives the
/// table of the two sequences counted one after the other.
pub proof fn lemma_merge_tallies(t1: Seq<Option<Seq<char>>>, t2: Seq<Option<Seq<char>>>)
    ensures
        merge_models(tally(Map::empty(), t1), tally(Map::empty(), t2)) == tally(
            Map::empty(),
            t1 + t2,
        ),
{
    assert forall|k: Seq<char>| occurrences(t1 + t2, k) == occurrences(t1, k) + occurrences(t2, k) by {
        lemma_occurrences_concat(t1, t2, k);
    }
    assert forall|k: Seq<char>|
        #![trigger merge_models(tally(Map::empty(), t1), tally(Map::empty(), t2)).contains_key(k)]
        merge_models(tally(Map::empty(), t1), tally(Map::empty(), t2)).contains_key(k)
            == tally(Map::empty(), t1 + t2).contains_key(k) && count_of(
            merge_models(tally(Map::empty(), t1), tally(Map::empty(), t2)),
            k,
        ) == count_of(tally(Map::empty(), t1 + t2), k) by {
        lemma_tally_counts(t1, k);
        lemma_tally_counts(t2, k);
        lemma_tally_counts(t1 + t2, k);
    }
    assert(merge_models(tally(Map::empty(), t1), tally(Map::empty(), t2)) =~= tally(
        Map::empty(),
        t1 + t2,
    ));
}

proof fn lemma_occurrences_concat(t1: Seq<Option<Seq<char>>>, t2: Seq<Option<Seq<char>>>, k: Seq<char>)
    ensures
        occurrences(t1 + t2, k) == occurrences(t1, k) + occurrences(t2, k),
    decreases t2.len(),
{
    if t2.len() == 0 {
        assert(t1 + t2 == t1);
    } else {
        lemma_occurrences_concat(t1, t2.drop_last(), k);
        assert((t1 + t2).drop_last() == t1 + t2.drop_last());
    }
}

/// Merging is a union with summed counts: a token held by one table only keeps
/// its count, a token held by both gets the sum of the two (capped at
/// `u64::MAX`).
pub proof fn lemma_merge_union(a: Map<Seq<char>, u64>, b: Map<Seq<char>, u64>, k: Seq<char>)
    ensures
        merge_models(a, b).contains_key(k) <==> a.contains_key(k) || b.contains_key(k),
        a.contains_key(k) && !b.contains_key(k) ==> merge_models(a, b)[k] == a[k],
        !a.contains_key(k) && b.contains_key(k) ==> merge_models(a, b)[k] == b[k],
        a.contains_key(k) && b.contains_key(k) ==> merge_models(a, b)[k] == add_counts(a[k], b[k]),
{
}

/// Merge order does not matter: merging is commutative.
pub proof fn lemma_merge_commutative(a: Map<Seq<char>, u64>, b: Map<Seq<char>, u64>)
    ensures
        merge_models(a, b) == merge_models(b, a),
{
    assert(merge_models(a, b) =~= merge_models(b, a));
}

/// Merge order does not matter: merging is associative.
pub proof fn lemma_merge_associative(
    a: Map<Seq<char>, u64>,
    b: Map<Seq<char>, u64>,
    c: Map<Seq<char>, u64>,
)
    ensures
        merge_models(merge_models(a, b), c) == merge_models(a, merge_models(b, c)),
{
    assert(merge_models(merge_models(a, b), c) =~= merge_models(a, merge_models(b, c)));
}

/// Number of present tokens.
pub open spec fn present_count(toks: Seq<Option<Seq<char>>>) -> nat
    decreases toks.len(),
{
    if toks.len() == 0 {
        0
    } else {
        present_count(toks.drop_last()) + if toks.last() is Some {
            1nat
        } else {
            0nat
        }
    }
}

/// Sum of the counts of the tokens `ks` in a table model.
pub open spec fn sum_counts(m: Map<Seq<char>, u64>, ks: Seq<Seq<char>>) -> int
    decreases ks.len(),
{
    if ks.len() == 0 {
        0
    } else {
        sum_counts(m, ks.drop_last()) + count_of(m, ks.last())
    }
}

proof fn lemma_sum_counts_empty(ks: Seq<Seq<char>>)
    ensures
        sum_counts(Map::empty(), ks) == 0,
    decreases ks.len(),
{
    if ks.len() > 0 {
        lemma_sum_counts_empty(ks.drop_last());
    }
}

proof fn lemma_sum_counts_bump(m: Map<Seq<char>, u64>, ks: Seq<Seq<char>>, k: Seq<char>, v: u64)
    requires
        ks.no_duplicates(),
        v == count_of(m, k) + 1,
    ensures
        sum_counts(m.insert(k, v), ks) == sum_counts(m, ks) + if ks.contains(k) {
            1int
        } else {
            0int
        },
    decreases ks.len(),
{
    if ks.len() > 0 {
        let init = ks.drop_last();
        assert(init.no_duplicates());
        lemma_sum_counts_bump(m, init, k, v);
        if ks.last() == k {
            assert(!init.contains(k)) by {
                if init.contains(k) {
                    let j = choose|j: int| 0 <= j < init.len() && init[j] == k;
                    assert(ks[j] == ks[ks.len() - 1]);
                }
            }
        } else {
            assert(ks.contains(k) == init.contains(k)) by {
                if ks.contains(k) {
                    let j = choose|j: int| 0 <= j < ks.len() && ks[j] == k;
                    assert(init[j] == k);
                }
                if init.contains(k) {
                    let j = choose|j: int| 0 <= j < init.len() && init[j] == k;
                    assert(ks[j] == k);
                }
            }
        }
    }
}

proof fn lemma_occurrences_le_present(toks: Seq<Option<Seq<char>>>, k: Seq<char>)
    ensures
        occurrences(toks, k) <= present_count(toks),
    decreases toks.len(),
{
    if toks.len() > 0 {
        lemma_occurrences_le_present(toks.drop_last(), k);
    }
}

/// Every match is counted exactly once: when the tokens `ks`, each listed
/// once, include every present token, the counts of the table built from the
/// tokens sum to the number of present tokens (which must fit a count).
pub proof fn lemma_total_count(toks: Seq<Option<Seq<char>>>, ks: Seq<Seq<char>>)
    requires
        ks.no_duplicates(),
        forall|i: int| 0 <= i < toks.len() && toks[i] is Some ==> ks.contains(#[trigger] toks[i]->Some_0),
        present_count(toks) <= u64::MAX,
    ensures
        sum_counts(tally(Map::empty(), toks), ks) == present_count(toks),
    decreases toks.len(),
{
    if toks.len() == 0 {
        lemma_sum_counts_empty(ks);
    } else {
        let prev = toks.drop_last();
        assert forall|i: int| 0 <= i < prev.len() && prev[i] is Some implies ks.contains(
            #[trigger] prev[i]->Some_0,
        ) by {
            assert(toks[i] == prev[i]);
        }
        lemma_total_count(prev, ks);
        let m = tally(Map::empty(), prev);
        match toks.last() {
            Some(k) => {
                lemma_tally_counts(prev, k);
                lemma_occurrences_le_present(prev, k);
                assert(toks[toks.len() - 1] == toks.last());
                assert(ks.contains(k));
                lemma_sum_counts_bump(m, ks, k, (count_of(m, k) + 1) as u64);
            },
            None => {},
        }
    }
}

proof fn lemma_present_count_concat(t1: Seq<Option<Seq<char>>>, t2: Seq<Option<Seq<char>>>)
    ensures
        present_count(t1 + t2) == present_count(t1) + present_count(t2),
    decreases t2.len(),
{
    if t2.len() == 0 {
        assert(t1 + t2 == t1);
    } else {
        lemma_present_count_concat(t1, t2.drop_last());
        assert((t1 + t2).drop_last() == t1 + t2.drop_last());
    }
}

/// However the tokens are split between two workers, the merge of their
/// tables counts every match once: its counts sum to the number of present
/// tokens of both.
pub proof fn lemma_merged_total(
    t1: Seq<Option<Seq<char>>>,
    t2: Seq<Option<Seq<char>>>,
    ks: Seq<Seq<char>>,
)
    requires
        ks.no_duplicates(),
        forall|i: int| 0 <= i < t1.len() && t1[i] is Some ==> ks.contains(#[trigger] t1[i]->Some_0),
        forall|i: int| 0 <= i < t2.len() && t2[i] is Some ==> ks.contains(#[trigger] t2[i]->Some_0),
        present_count(t1) + present_count(t2) <= u64::MAX,
    ensures
        sum_counts(merge_models(tally(Map::empty(), t1), tally(Map::empty(), t2)), ks)
            == present_count(t1) + present_count(t2),
{
    lemma_merge_tallies(t1, t2);
    lemma_present_count_concat(t1, t2);
    let t = t1 + t2;
    assert forall|i: int| 0 <= i < t.len() && t[i] is Some implies ks.contains(#[trigger] t[i]->Some_0) by {
        if i < t1.len() {
            assert(t[i] == t1[i]);
        } else {
            assert(t[i] == t2[i - t1.len()]);
        }
    }
    lemma_total_count(t, ks);
}

} // verus!
