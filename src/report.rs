use vstd::prelude::*;
use crate::freq_table::FrequencyTable;

verus! {

/// Lexicographic order on tokens, character by character.
pub open spec fn token_le(a: Seq<char>, b: Seq<char>) -> bool
    decreases a.len(),
{
    if a.len() == 0 {
        true
    } else if b.len() == 0 {
        false
    } else if a[0] != b[0] {
        (a[0] as int) < (b[0] as int)
    } else {
        token_le(a.drop_first(), b.drop_first())
    }
}

proof fn lemma_token_le_total(a: Seq<char>, b: Seq<char>)
    ensures
        token_le(a, b) || token_le(b, a),
        token_le(a, b) && token_le(b, a) ==> a == b,
    decreases a.len(),
{
    if a.len() > 0 && b.len() > 0 && a[0] == b[0] {
        lemma_token_le_total(a.drop_first(), b.drop_first());
        if token_le(a, b) && token_le(b, a) {
            assert(a == seq![a[0]] + a.drop_first());
            assert(b == seq![b[0]] + b.drop_first());
        }
    }
}

proof fn lemma_token_le_trans(a: Seq<char>, b: Seq<char>, c: Seq<char>)
    requires
        token_le(a, b),
        token_le(b, c),
    ensures
        token_le(a, c),
    decreases a.len(),
{
    if a.len() > 0 && b.len() > 0 && c.len() > 0 && a[0] == b[0] && b[0] == c[0] {
        lemma_token_le_trans(a.drop_first(), b.drop_first(), c.drop_first());
    }
}

/// Whether `a` comes before `b` or equals it, in lexicographic order.
pub fn token_less_eq(a: &String, b: &String) -> (r: bool)
    ensures
        r == token_le(a@, b@),
{
    let sa = a.as_str();
    let sb = b.as_str();
    let na = sa.unicode_len();
    let nb = sb.unicode_len();
    let mut i: usize = 0;
    proof {
        assert(a@.subrange(0, na as int) == a@);
        assert(b@.subrange(0, nb as int) == b@);
    }
    while i < na && i < nb
        invariant
            sa@ == a@,
            sb@ == b@,
            na == a@.len(),
            nb == b@.len(),
            i <= na,
            i <= nb,
            token_le(a@, b@) == token_le(a@.subrange(i as int, na as int), b@.subrange(i as int, nb as int)),
        decreases na - i,
    {
        let ca = sa.get_char(i);
        let cb = sb.get_char(i);
        proof {
            let ra = a@.subrange(i as int, na as int);
            let rb = b@.subrange(i as int, nb as int);
            assert(ra.drop_first() == a@.subrange(i + 1, na as int));
            assert(rb.drop_first() == b@.subrange(i + 1, nb as int));
        }
        if ca != cb {
            return (ca as u32) < (cb as u32);
        }
        i += 1;
    }
    i == na
}

spec fn es_facts(m: Map<Seq<char>, u64>, es: Seq<(String, u64)>) -> bool {
    &&& forall|x: int|
        0 <= x < es.len() ==> m.contains_key(#[trigger] es[x].0@) && m[es[x].0@] == es[x].1
    &&& forall|k: Seq<char>| #[trigger]
        m.contains_key(k) ==> exists|x: int| 0 <= x < es.len() && #[trigger] es[x].0@ == k
    &&& forall|x: int, y: int| 0 <= x < y < es.len() ==> es[x].0@ != es[y].0@
}

#[verifier::opaque]
spec fn sort_progress(m: Map<Seq<char>, u64>, es: Seq<(String, u64)>, r: Seq<(String, u64)>, i: int) -> bool {
    &&& forall|x: int|
        0 <= x < r.len() ==> m.contains_key(#[trigger] r[x].0@) && m[r[x].0@] == r[x].1
    &&& forall|x: int, y: int| 0 <= x < r.len() && i <= y < es.len() ==> (#[trigger] r[x]).0@ != (#[trigger] es[y]).0@
    &&& forall|y: int|
        0 <= y < i ==> exists|x: int| 0 <= x < r.len() && #[trigger] r[x].0@ == (#[trigger] es[y]).0@
    &&& forall|x: int, y: int| 0 <= x < y < r.len() ==> r[x].0@ != r[y].0@
    &&& forall|x: int, y: int| 0 <= x < y < r.len() ==> token_le(r[x].0@, r[y].0@)
}

proof fn lemma_insert_index(old_r: Seq<(String, u64)>, pos: int, e: (String, u64))
    requires
        0 <= pos <= old_r.len(),
    ensures
        old_r.insert(pos, e).len() == old_r.len() + 1,
        forall|x: int|
            0 <= x < old_r.len() + 1 ==> #[trigger] old_r.insert(pos, e)[x] == if x < pos {
                old_r[x]
            } else if x == pos {
                e
            } else {
                old_r[x - 1]
            },
{
}

proof fn lemma_sort_step_sorted(old_r: Seq<(String, u64)>, pos: int, e: (String, u64))
    requires
        0 <= pos <= old_r.len(),
        forall|x: int| 0 <= x < old_r.len() ==> (#[trigger] old_r[x]).0@ != e.0@,
        forall|x: int, y: int| 0 <= x < y < old_r.len() ==> old_r[x].0@ != old_r[y].0@,
        forall|x: int, y: int| 0 <= x < y < old_r.len() ==> token_le(old_r[x].0@, old_r[y].0@),
        forall|x: int| 0 <= x < pos ==> !token_le(e.0@, #[trigger] old_r[x].0@),
        pos < old_r.len() ==> token_le(e.0@, old_r[pos].0@),
    ensures
        forall|x: int, y: int|
            0 <= x < y < old_r.len() + 1 ==> old_r.insert(pos, e)[x].0@ != old_r.insert(pos, e)[y].0@
                && token_le(old_r.insert(pos, e)[x].0@, old_r.insert(pos, e)[y].0@),
{
    lemma_insert_index(old_r, pos, e);
    let key = e.0@;
    let r = old_r.insert(pos, e);
    assert forall|x: int, y: int| 0 <= x < y < r.len() implies r[x].0@ != r[y].0@ && token_le(
        r[x].0@,
        r[y].0@,
    ) by {
        if x == pos {
            assert(r[y] == old_r[y - 1]);
            if y - 1 > pos {
                lemma_token_le_trans(key, old_r[pos].0@, old_r[y - 1].0@);
            }
        } else if y == pos {
            assert(r[x] == old_r[x]);
            assert(!token_le(key, old_r[x].0@));
            lemma_token_le_total(key, old_r[x].0@);
        } else {
            let x0 = if x < pos { x } else { x - 1 };
            let y0 = if y < pos { y } else { y - 1 };
            assert(r[x] == old_r[x0]);
            assert(r[y] == old_r[y0]);
        }
    }
}

proof fn lemma_sort_step(
    m: Map<Seq<char>, u64>,
    es: Seq<(String, u64)>,
    old_r: Seq<(String, u64)>,
    i: int,
    pos: int,
    e: (String, u64),
)
    requires
        es_facts(m, es),
        sort_progress(m, es, old_r, i),
        0 <= i < es.len(),
        e.0@ == es[i].0@,
        e.1 == es[i].1,
        0 <= pos <= old_r.len(),
        forall|x: int| 0 <= x < pos ==> !token_le(e.0@, #[trigger] old_r[x].0@),
        pos < old_r.len() ==> token_le(e.0@, old_r[pos].0@),
    ensures
        sort_progress(m, es, old_r.insert(pos, e), i + 1),
{
    reveal(sort_progress);
    lemma_insert_index(old_r, pos, e);
    let key = e.0@;
    let r = old_r.insert(pos, e);
    assert forall|x: int| 0 <= x < old_r.len() implies (#[trigger] old_r[x]).0@ != key by {
        assert(old_r[x].0@ != es[i].0@);
    }
    lemma_sort_step_sorted(old_r, pos, e);
    assert forall|x: int| 0 <= x < r.len() implies m.contains_key(#[trigger] r[x].0@) && m[r[x].0@]
        == r[x].1 by {
        if x > pos {
            assert(r[x] == old_r[x - 1]);
        }
    }
    assert forall|x: int, y: int| 0 <= x < r.len() && i + 1 <= y < es.len() implies (#[trigger] r[x]).0@
        != (#[trigger] es[y]).0@ by {
        if x == pos {
            assert(es[i].0@ != es[y].0@);
        } else {
            let x0 = if x < pos { x } else { x - 1 };
            assert(r[x] == old_r[x0]);
            assert(old_r[x0].0@ != es[y].0@);
        }
    }
    assert forall|y: int| 0 <= y < i + 1 implies exists|x: int|
        0 <= x < r.len() && #[trigger] r[x].0@ == (#[trigger] es[y]).0@ by {
        if y < i {
            let x = choose|x: int| 0 <= x < old_r.len() && #[trigger] old_r[x].0@ == (#[trigger] es[y]).0@;
            if x < pos {
                assert(r[x] == old_r[x]);
            } else {
                assert(r[x + 1] == old_r[x]);
            }
        } else {
            assert(r[pos].0@ == es[y].0@);
        }
    }
}

/// The table's entries sorted by token: the same `(token, count)` pairs as the
/// table, each token once, in lexicographic order.
pub fn sorted_entries(table: &FrequencyTable) -> (r: Vec<(String, u64)>)
    requires
        table.wf(),
    ensures
        forall|i: int|
            0 <= i < r@.len() ==> table@.contains_key(#[trigger] r@[i].0@) && table@[r@[i].0@]
                == r@[i].1,
        forall|k: Seq<char>| #[trigger]
            table@.contains_key(k) ==> exists|i: int| 0 <= i < r@.len() && #[trigger] r@[i].0@ == k,
        forall|i: int, j: int| 0 <= i < j < r@.len() ==> r@[i].0@ != r@[j].0@,
        forall|i: int, j: int| 0 <= i < j < r@.len() ==> token_le(r@[i].0@, r@[j].0@),
{
    let es = table.entries();
    let mut r: Vec<(String, u64)> = Vec::new();
    let mut i: usize = 0;
    proof {
        reveal(sort_progress);
    }
    while i < es.len()
        invariant
            i <= es@.len(),
            es_facts(table@, es@),
            sort_progress(table@, es@, r@, i as int),
        decreases es@.len() - i,
    {
        let key = es[i].0.clone();
        let count = es[i].1;
        let mut pos: usize = 0;
        while pos < r.len() && !token_less_eq(&key, &r[pos].0)
            invariant
                pos <= r@.len(),
                key@ == es@[i as int].0@,
                forall|x: int| 0 <= x < pos ==> !token_le(key@, #[trigger] r@[x].0@),
            decreases r@.len() - pos,
        {
            pos += 1;
        }
        proof {
            lemma_sort_step(table@, es@, r@, i as int, pos as int, (key, count));
        }
        r.insert(pos, (key, count));
        i += 1;
    }
    proof {
        reveal(sort_progress);
        assert forall|k: Seq<char>| #[trigger]
            table@.contains_key(k) implies exists|x: int| 0 <= x < r@.len() && #[trigger] r@[x].0@ == k by {
            let y = choose|y: int| 0 <= y < es@.len() && #[trigger] es@[y].0@ == k;
            let x = choose|x: int| 0 <= x < r@.len() && #[trigger] r@[x].0@ == (#[trigger] es@[y]).0@;
        }
    }
    r
}

/// The decimal digits of `n`, most significant first, without leading zeros.
pub open spec fn decimal(n: nat) -> Seq<char>
    decreases n,
{
    if n < 10 {
        seq![(48 + n) as char]
    } else {
        decimal(n / 10) + seq![(48 + n % 10) as char]
    }
}

/// Relies on `u64::to_string`, through `Display`: the decimal digits of the
/// number, with no sign and no leading zeros.
#[verifier::external_body]
pub(crate) fn decimal_string(n: u64) -> (r: String)
    ensures
        r@ == decimal(n as nat),
{
    n.to_string()
}

/// One report line: the token, a colon and a space, the count, a line end.
pub open spec fn report_line(token: Seq<char>, count: u64) -> Seq<char> {
    token + seq![':', ' '] + decimal(count as nat) + seq!['\n']
}

/// The report of the given entries: their lines, in order.
pub open spec fn report_text(es: Seq<(String, u64)>) -> Seq<char>
    decreases es.len(),
{
    if es.len() == 0 {
        Seq::empty()
    } else {
        report_text(es.drop_last()) + report_line(es.last().0@, es.last().1)
    }
}

/// Writes one `token: count` line per entry, in the order given.
pub fn format_report(es: &Vec<(String, u64)>) -> (r: String)
    ensures
        r@ == report_text(es@),
{
    let mut out = String::new();
    let mut i: usize = 0;
    while i < es.len()
        invariant
            i <= es@.len(),
            out@ == report_text(es@.take(i as int)),
        decreases es@.len() - i,
    {
        let num = decimal_string(es[i].1);
        out.append(es[i].0.as_str());
        out.append(": ");
        out.append(num.as_str());
        out.append("\n");
        proof {
            reveal_strlit(": ");
            reveal_strlit("\n");
            assert(es@.take(i + 1).drop_last() == es@.take(i as int));
            assert(out@ == report_text(es@.take(i as int)) + report_line(es@[i as int].0@, es@[i as int].1));
        }
        i += 1;
    }
    proof {
        assert(es@.take(es@.len() as int) == es@);
    }
    out
}

} // verus!
