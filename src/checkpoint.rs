use vstd::prelude::*;
use vstd::bytes::{
    lemma_auto_spec_u64_to_from_le_bytes, spec_u64_from_le_bytes, spec_u64_to_le_bytes,
    u64_from_le_bytes, u64_to_le_bytes,
};
use vstd::slice::{slice_subrange, slice_to_vec};
use vstd::utf8::{decode_utf8, encode_utf8, valid_utf8};
use crate::reader::ReaderCursor;

verus! {

/// Relies on `String::from_utf8`: it succeeds exactly on valid UTF-8, and the
/// text is what the bytes encode.
#[verifier::external_body]
fn text_from_utf8(b: Vec<u8>) -> (r: Option<String>)
    ensures
        r is Some <==> valid_utf8(b@),
        r matches Some(s) ==> s@ == decode_utf8(b@),
{
    String::from_utf8(b).ok()
}

/// Turns the bytes of a batch into text; nothing when they are not valid UTF-8.
pub fn batch_text(b: Vec<u8>) -> (r: Option<String>)
    ensures
        r is Some <==> valid_utf8(b@),
        r matches Some(s) ==> s@ == decode_utf8(b@),
{
    text_from_utf8(b)
}

/// The table model that holds `es`, a later entry overriding an earlier one.
pub open spec fn entries_model(es: Seq<(String, u64)>) -> Map<Seq<char>, u64>
    decreases es.len(),
{
    if es.len() == 0 {
        Map::empty()
    } else {
        entries_model(es.drop_last()).insert(es.last().0@, es.last().1)
    }
}

/// A saved state of the pipeline: the shared buffer's batches (oldest first),
/// every reader's cursor, and every aggregator's private table as entries.
pub struct Checkpoint {
    pub buffer: Vec<String>,
    pub cursors: Vec<ReaderCursor>,
    pub tables: Vec<Vec<(String, u64)>>,
}

/// A text as stored: its UTF-8 length in eight little-endian bytes, then its
/// UTF-8 bytes.
pub open spec fn text_bytes(s: Seq<char>) -> Seq<u8> {
    spec_u64_to_le_bytes(encode_utf8(s).len() as u64) + encode_utf8(s)
}

/// The stored forms of the items of `s`, one after the other.
pub open spec fn concat_map<A>(s: Seq<A>, f: spec_fn(A) -> Seq<u8>) -> Seq<u8>
    decreases s.len(),
{
    if s.len() == 0 {
        Seq::empty()
    } else {
        concat_map(s.drop_last(), f) + f(s.last())
    }
}

/// A cursor as stored: file index, then byte offset.
pub open spec fn cursor_bytes(c: ReaderCursor) -> Seq<u8> {
    spec_u64_to_le_bytes(c.file_index as u64) + spec_u64_to_le_bytes(c.byte_offset as u64)
}

/// A table entry as stored: the token, then the count.
pub open spec fn entry_bytes(e: (Seq<char>, u64)) -> Seq<u8> {
    text_bytes(e.0) + spec_u64_to_le_bytes(e.1)
}

/// `text_bytes` as a function value.
pub open spec fn text_fn() -> spec_fn(Seq<char>) -> Seq<u8> {
    |s: Seq<char>| text_bytes(s)
}

/// `cursor_bytes` as a function value.
pub open spec fn cursor_fn() -> spec_fn(ReaderCursor) -> Seq<u8> {
    |c: ReaderCursor| cursor_bytes(c)
}

/// `entry_bytes` as a function value.
pub open spec fn entry_fn() -> spec_fn((Seq<char>, u64)) -> Seq<u8> {
    |e: (Seq<char>, u64)| entry_bytes(e)
}

/// A table as stored: its entry count, then each entry.
pub open spec fn table_bytes(es: Seq<(Seq<char>, u64)>) -> Seq<u8> {
    spec_u64_to_le_bytes(es.len() as u64) + concat_map(es, entry_fn())
}

/// `table_bytes` as a function value.
pub open spec fn table_fn() -> spec_fn(Seq<(Seq<char>, u64)>) -> Seq<u8> {
    |t: Seq<(Seq<char>, u64)>| table_bytes(t)
}

/// A list as stored: its length, then each item.
pub open spec fn list_bytes<A>(s: Seq<A>, f: spec_fn(A) -> Seq<u8>) -> Seq<u8> {
    spec_u64_to_le_bytes(s.len() as u64) + concat_map(s, f)
}

/// The entries of a table, by value.
pub open spec fn entries_view(es: Seq<(String, u64)>) -> Seq<(Seq<char>, u64)> {
    es.map_values(|e: (String, u64)| (e.0@, e.1))
}

/// The batches of a checkpoint, by value.
pub open spec fn buffer_view(c: Checkpoint) -> Seq<Seq<char>> {
    c.buffer@.map_values(|s: String| s@)
}

/// The tables of a checkpoint, by value.
pub open spec fn tables_view(c: Checkpoint) -> Seq<Seq<(Seq<char>, u64)>> {
    c.tables@.map_values(|t: Vec<(String, u64)>| entries_view(t@))
}

/// A checkpoint as stored: the batches, the cursors, the tables, each as a list.
pub open spec fn checkpoint_bytes(c: Checkpoint) -> Seq<u8> {
    list_bytes(buffer_view(c), text_fn()) + list_bytes(c.cursors@, cursor_fn()) + list_bytes(
        tables_view(c),
        table_fn(),
    )
}

proof fn lemma_concat_map_append<A>(a: Seq<A>, b: Seq<A>, f: spec_fn(A) -> Seq<u8>)
    ensures
        concat_map(a + b, f) == concat_map(a, f) + concat_map(b, f),
    decreases b.len(),
{
    if b.len() == 0 {
        assert(a + b == a);
    } else {
        lemma_concat_map_append(a, b.drop_last(), f);
        assert((a + b).drop_last() == a + b.drop_last());
    }
}

proof fn lemma_concat_map_from<A>(s: Seq<A>, f: spec_fn(A) -> Seq<u8>, k: int)
    requires
        0 <= k < s.len(),
    ensures
        concat_map(s.subrange(k, s.len() as int), f) == f(s[k]) + concat_map(
            s.subrange(k + 1, s.len() as int),
            f,
        ),
{
    let rest = s.subrange(k + 1, s.len() as int);
    assert(s.subrange(k, s.len() as int) == seq![s[k]] + rest);
    lemma_concat_map_append(seq![s[k]], rest, f);
    assert(seq![s[k]].drop_last() == Seq::<A>::empty());
    assert(seq![s[k]].last() == s[k]);
    assert(concat_map(Seq::<A>::empty(), f) == Seq::<u8>::empty());
    assert(concat_map(seq![s[k]], f) == Seq::<u8>::empty() + f(s[k]));
    assert(Seq::<u8>::empty() + f(s[k]) == f(s[k]));
}

proof fn lemma_concat_map_take<A>(s: Seq<A>, f: spec_fn(A) -> Seq<u8>, k: int)
    requires
        0 <= k < s.len(),
    ensures
        concat_map(s.take(k + 1), f) == concat_map(s.take(k), f) + f(s[k]),
{
    assert(s.take(k + 1).drop_last() == s.take(k));
}

/// Whether `x` stands in `b` from position `pos` on.
pub open spec fn starts_at(b: Seq<u8>, pos: int, x: Seq<u8>) -> bool {
    0 <= pos && pos + x.len() <= b.len() && b.subrange(pos, pos + x.len()) == x
}

proof fn lemma_starts_at_split(b: Seq<u8>, pos: int, x: Seq<u8>, y: Seq<u8>)
    requires
        starts_at(b, pos, x + y),
    ensures
        starts_at(b, pos, x),
        starts_at(b, pos + x.len(), y),
{
    let whole = b.subrange(pos, pos + x.len() + y.len());
    assert(whole == x + y);
    assert(b.subrange(pos, pos + x.len()) =~= whole.subrange(0, x.len() as int));
    assert(whole.subrange(0, x.len() as int) =~= x);
    assert(b.subrange(pos + x.len(), pos + x.len() + y.len()) =~= whole.subrange(
        x.len() as int,
        whole.len() as int,
    ));
    assert(whole.subrange(x.len() as int, whole.len() as int) =~= y);
}

fn push_u64(out: &mut Vec<u8>, n: u64)
    ensures
        final(out)@ == old(out)@ + spec_u64_to_le_bytes(n),
{
    let b = u64_to_le_bytes(n);
    let mut i: usize = 0;
    let ghost o = out@;
    while i < 8
        invariant
            b@ == spec_u64_to_le_bytes(n),
            b@.len() == 8,
            i <= 8,
            out@ == o + b@.take(i as int),
        decreases 8 - i,
    {
        out.push(b[i]);
        proof {
            assert(b@.take(i + 1) == b@.take(i as int).push(b@[i as int]));
        }
        i += 1;
    }
    proof {
        assert(b@.take(8) == b@);
    }
}

fn push_text(out: &mut Vec<u8>, s: &String)
    ensures
        final(out)@ == old(out)@ + text_bytes(s@),
{
    let bytes = s.as_str().as_bytes();
    let ghost o = out@;
    push_u64(out, bytes.len() as u64);
    let ghost o2 = out@;
    let mut i: usize = 0;
    while i < bytes.len()
        invariant
            bytes@ == encode_utf8(s@),
            o2 == o + spec_u64_to_le_bytes(bytes@.len() as u64),
            i <= bytes@.len(),
            out@ == o2 + bytes@.take(i as int),
        decreases bytes@.len() - i,
    {
        out.push(bytes[i]);
        proof {
            assert(bytes@.take(i + 1) == bytes@.take(i as int).push(bytes@[i as int]));
        }
        i += 1;
    }
    proof {
        assert(bytes@.take(bytes@.len() as int) == bytes@);
        assert(out@ == o + (spec_u64_to_le_bytes(bytes@.len() as u64) + bytes@));
    }
}

impl Checkpoint {
    /// The stored form of the checkpoint.
    pub fn encode(&self) -> (r: Vec<u8>)
        ensures
            r@ == checkpoint_bytes(*self),
    {
        let ghost bv = buffer_view(*self);
        let ghost tv = tables_view(*self);
        let mut out: Vec<u8> = Vec::new();
        push_u64(&mut out, self.buffer.len() as u64);
        let ghost start = out@;
        let mut i: usize = 0;
        while i < self.buffer.len()
            invariant
                i <= self.buffer@.len(),
                bv == buffer_view(*self),
                start == spec_u64_to_le_bytes(self.buffer@.len() as u64),
                out@ == start + concat_map(bv.take(i as int), text_fn()),
            decreases self.buffer@.len() - i,
        {
            let ghost o = out@;
            push_text(&mut out, &self.buffer[i]);
            proof {
                lemma_concat_map_take(bv, text_fn(), i as int);
                assert(bv[i as int] == self.buffer@[i as int]@);
                assert(text_fn()(bv[i as int]) == text_bytes(bv[i as int]));
                assert(out@ =~= start + (concat_map(bv.take(i as int), text_fn()) + text_fn()(bv[i as int])));
            }
            i += 1;
        }
        proof {
            assert(bv.take(self.buffer@.len() as int) == bv);
        }
        let ghost part1 = out@;
        push_u64(&mut out, self.cursors.len() as u64);
        let mut i: usize = 0;
        while i < self.cursors.len()
            invariant
                i <= self.cursors@.len(),
                out@ == part1 + spec_u64_to_le_bytes(self.cursors@.len() as u64) + concat_map(
                    self.cursors@.take(i as int),
                    cursor_fn(),
                ),
            decreases self.cursors@.len() - i,
        {
            let ghost o = out@;
            push_u64(&mut out, self.cursors[i].file_index as u64);
            push_u64(&mut out, self.cursors[i].byte_offset as u64);
            proof {
                lemma_concat_map_take(self.cursors@, cursor_fn(), i as int);
                assert(cursor_fn()(self.cursors@[i as int]) == cursor_bytes(self.cursors@[i as int]));
                assert(out@ =~= o + cursor_fn()(self.cursors@[i as int]));
            }
            i += 1;
        }
        proof {
            assert(self.cursors@.take(self.cursors@.len() as int) == self.cursors@);
        }
        let ghost part2 = out@;
        push_u64(&mut out, self.tables.len() as u64);
        let mut t: usize = 0;
        while t < self.tables.len()
            invariant
                t <= self.tables@.len(),
                tv == tables_view(*self),
                out@ == part2 + spec_u64_to_le_bytes(self.tables@.len() as u64) + concat_map(
                    tv.take(t as int),
                    table_fn(),
                ),
            decreases self.tables@.len() - t,
        {
            let es = &self.tables[t];
            let ghost ev = entries_view(es@);
            let ghost before = out@;
            push_u64(&mut out, es.len() as u64);
            let mut j: usize = 0;
            while j < es.len()
                invariant
                    j <= es@.len(),
                    ev == entries_view(es@),
                    out@ == before + spec_u64_to_le_bytes(es@.len() as u64) + concat_map(
                        ev.take(j as int),
                        entry_fn(),
                    ),
                decreases es@.len() - j,
            {
                let ghost o = out@;
                push_text(&mut out, &es[j].0);
                push_u64(&mut out, es[j].1);
                proof {
                    lemma_concat_map_take(ev, entry_fn(), j as int);
                    assert(ev[j as int] == (es@[j as int].0@, es@[j as int].1));
                    assert(entry_fn()(ev[j as int]) == entry_bytes(ev[j as int]));
                    assert(out@ =~= o + entry_fn()(ev[j as int]));
                }
                j += 1;
            }
            proof {
                assert(ev.take(es@.len() as int) == ev);
                assert(tv[t as int] == ev);
                lemma_concat_map_take(tv, table_fn(), t as int);
                assert(table_fn()(ev) == table_bytes(ev));
                assert(out@ =~= before + table_fn()(ev));
            }
            t += 1;
        }
        proof {
            assert(tv.take(self.tables@.len() as int) == tv);
        }
        out
    }
}

proof fn lemma_concat_map_len<A>(s: Seq<A>, f: spec_fn(A) -> Seq<u8>)
    requires
        forall|x: A| #[trigger] f(x).len() >= 8,
    ensures
        concat_map(s, f).len() >= 8 * s.len(),
    decreases s.len(),
{
    if s.len() > 0 {
        lemma_concat_map_len(s.drop_last(), f);
        assert(f(s.last()).len() >= 8);
    }
}

proof fn lemma_item_lens()
    ensures
        forall|s: Seq<char>| #[trigger] text_fn()(s).len() >= 8,
        forall|c: ReaderCursor| #[trigger] cursor_fn()(c).len() >= 8,
        forall|e: (Seq<char>, u64)| #[trigger] entry_fn()(e).len() >= 8,
        forall|t: Seq<(Seq<char>, u64)>| #[trigger] table_fn()(t).len() >= 8,
{
    lemma_auto_spec_u64_to_from_le_bytes();
    assert forall|s: Seq<char>| #[trigger] text_fn()(s).len() >= 8 by {
        assert(spec_u64_to_le_bytes(encode_utf8(s).len() as u64).len() == 8);
    }
    assert forall|c: ReaderCursor| #[trigger] cursor_fn()(c).len() >= 8 by {
        assert(spec_u64_to_le_bytes(c.file_index as u64).len() == 8);
    }
    assert forall|e: (Seq<char>, u64)| #[trigger] entry_fn()(e).len() >= 8 by {
        assert(spec_u64_to_le_bytes(encode_utf8(e.0).len() as u64).len() == 8);
    }
    assert forall|t: Seq<(Seq<char>, u64)>| #[trigger] table_fn()(t).len() >= 8 by {
        assert(spec_u64_to_le_bytes(t.len() as u64).len() == 8);
    }
}

fn read_u64(bytes: &Vec<u8>, pos: usize) -> (r: Option<(u64, usize)>)
    ensures
        r is Some <==> pos + 8 <= bytes@.len(),
        r matches Some((v, next)) ==> next == pos + 8 && spec_u64_to_le_bytes(v) == bytes@.subrange(
            pos as int,
            pos + 8,
        ),
        forall|x: u64|
            starts_at(bytes@, pos as int, #[trigger] spec_u64_to_le_bytes(x)) ==> r == Some(
                (x, (pos + 8) as usize),
            ),
{
    proof {
        lemma_auto_spec_u64_to_from_le_bytes();
    }
    if pos > bytes.len() || bytes.len() - pos < 8 {
        return None;
    }
    let v = u64_from_le_bytes(slice_subrange(bytes.as_slice(), pos, pos + 8));
    proof {
        let sub = bytes@.subrange(pos as int, pos + 8);
        assert(spec_u64_to_le_bytes(spec_u64_from_le_bytes(sub)) == sub);
        assert forall|x: u64|
            starts_at(bytes@, pos as int, #[trigger] spec_u64_to_le_bytes(x)) implies x == v by {
            assert(spec_u64_from_le_bytes(spec_u64_to_le_bytes(x)) == x);
        }
    }
    Some((v, pos + 8))
}

fn read_text(bytes: &Vec<u8>, pos: usize, Ghost(s): Ghost<Seq<char>>) -> (r: Option<(String, usize)>)
    ensures
        r matches Some((_, next)) ==> pos < next <= bytes@.len(),
        starts_at(bytes@, pos as int, text_bytes(s)) ==> (r matches Some((t, next)) && t@ == s && next
            == pos + text_bytes(s).len()),
{
    let ghost valid = starts_at(bytes@, pos as int, text_bytes(s));
    let ghost u = encode_utf8(s);
    proof {
        lemma_auto_spec_u64_to_from_le_bytes();
        if valid {
            lemma_starts_at_split(bytes@, pos as int, spec_u64_to_le_bytes(u.len() as u64), u);
        }
    }
    let (n, start) = match read_u64(bytes, pos) {
        Some(x) => x,
        None => return None,
    };
    if n > (bytes.len() - start) as u64 {
        return None;
    }
    let end = start + n as usize;
    let raw = slice_to_vec(slice_subrange(bytes.as_slice(), start, end));
    proof {
        if valid {
            assert(n == u.len() as u64);
            assert(raw@ == u);
            vstd::utf8::encode_utf8_valid_utf8(s);
            vstd::utf8::encode_utf8_decode_utf8(s);
        }
    }
    match text_from_utf8(raw) {
        Some(t) => Some((t, end)),
        None => None,
    }
}

fn same_bytes(a: &Vec<u8>, b: &Vec<u8>) -> (r: bool)
    ensures
        r == (a@ == b@),
{
    if a.len() != b.len() {
        return false;
    }
    let mut i: usize = 0;
    while i < a.len()
        invariant
            a@.len() == b@.len(),
            i <= a@.len(),
            forall|j: int| 0 <= j < i ==> a@[j] == b@[j],
        decreases a@.len() - i,
    {
        if a[i] != b[i] {
            return false;
        }
        i += 1;
    }
    proof {
        assert(a@ == b@);
    }
    true
}

impl Checkpoint {
    fn parse(bytes: &Vec<u8>) -> (r: Option<Checkpoint>)
        ensures
            forall|c: Checkpoint| #[trigger]
                checkpoint_bytes(c) == bytes@ ==> (r matches Some(c2) && checkpoint_bytes(c2)
                    == bytes@),
    {
        let total = bytes.len();
        let ghost valid = exists|c: Checkpoint| checkpoint_bytes(c) == bytes@;
        let ghost c = choose|c: Checkpoint| checkpoint_bytes(c) == bytes@;
        let ghost bv = buffer_view(c);
        let ghost cs = c.cursors@;
        let ghost tv = tables_view(c);
        let ghost l2 = list_bytes(cs, cursor_fn());
        let ghost l3 = list_bytes(tv, table_fn());
        proof {
            lemma_auto_spec_u64_to_from_le_bytes();
            lemma_item_lens();
            if valid {
                assert(bytes@ =~= spec_u64_to_le_bytes(bv.len() as u64) + (concat_map(bv, text_fn())
                    + (l2 + l3)));
                assert(bytes@.subrange(0, bytes@.len() as int) =~= bytes@);
                lemma_starts_at_split(
                    bytes@,
                    0,
                    spec_u64_to_le_bytes(bv.len() as u64),
                    concat_map(bv, text_fn()) + (l2 + l3),
                );
                lemma_concat_map_len(bv, text_fn());
                assert(bv.subrange(0, bv.len() as int) == bv);
            }
        }
        let (n, mut pos) = match read_u64(bytes, 0) {
            Some(x) => x,
            None => return None,
        };
        let mut buffer: Vec<String> = Vec::new();
        let mut k: u64 = 0;
        while k < n
            invariant
                total == bytes@.len(),
                valid == (exists|c: Checkpoint| checkpoint_bytes(c) == bytes@),
                pos <= bytes@.len(),
                k <= n,
                valid ==> n == bv.len() && buffer@.map_values(|x: String| x@) == bv.take(k as int)
                    && starts_at(
                    bytes@,
                    pos as int,
                    concat_map(bv.subrange(k as int, bv.len() as int), text_fn()) + (l2 + l3),
                ),
            decreases n - k,
        {
            let ghost item = bv[k as int];
            proof {
                lemma_auto_spec_u64_to_from_le_bytes();
                lemma_item_lens();
                if valid {
                    lemma_concat_map_from(bv, text_fn(), k as int);
                    let rest = concat_map(bv.subrange(k + 1, bv.len() as int), text_fn());
                    assert(concat_map(bv.subrange(k as int, bv.len() as int), text_fn()) + (l2 + l3)
                        =~= text_bytes(item) + (rest + (l2 + l3)));
                    lemma_starts_at_split(bytes@, pos as int, text_bytes(item), rest + (l2 + l3));
                }
            }
            let (t, next) = match read_text(bytes, pos, Ghost(item)) {
                Some(x) => x,
                None => return None,
            };
            let ghost before = buffer@;
            buffer.push(t);
            proof {
                lemma_auto_spec_u64_to_from_le_bytes();
                lemma_item_lens();
                if valid {
                    assert(buffer@.map_values(|x: String| x@) =~= bv.take(k + 1));
                }
            }
            pos = next;
            k += 1;
        }
        proof {
            lemma_auto_spec_u64_to_from_le_bytes();
            lemma_item_lens();
            if valid {
                assert(bv.subrange(bv.len() as int, bv.len() as int) =~= Seq::<Seq<char>>::empty());
                assert(concat_map(Seq::<Seq<char>>::empty(), text_fn()) =~= Seq::<u8>::empty());
                assert(Seq::<u8>::empty() + (l2 + l3) =~= l2 + l3);
                assert(bv.take(bv.len() as int) =~= bv);
                assert(l2 + l3 =~= spec_u64_to_le_bytes(cs.len() as u64) + (concat_map(cs, cursor_fn())
                    + l3));
                lemma_starts_at_split(
                    bytes@,
                    pos as int,
                    spec_u64_to_le_bytes(cs.len() as u64),
                    concat_map(cs, cursor_fn()) + l3,
                );
                lemma_concat_map_len(cs, cursor_fn());
                assert(cs.subrange(0, cs.len() as int) == cs);
            }
        }
        let (n, next) = match read_u64(bytes, pos) {
            Some(x) => x,
            None => return None,
        };
        pos = next;
        let mut cursors: Vec<ReaderCursor> = Vec::new();
        let mut k: u64 = 0;
        while k < n
            invariant
                total == bytes@.len(),
                valid == (exists|c: Checkpoint| checkpoint_bytes(c) == bytes@),
                pos <= bytes@.len(),
                k <= n,
                valid ==> n == cs.len() && cursors@ == cs.take(k as int) && starts_at(
                    bytes@,
                    pos as int,
                    concat_map(cs.subrange(k as int, cs.len() as int), cursor_fn()) + l3,
                ),
            decreases n - k,
        {
            let ghost item = cs[k as int];
            proof {
                lemma_auto_spec_u64_to_from_le_bytes();
                lemma_item_lens();
                if valid {
                    lemma_concat_map_from(cs, cursor_fn(), k as int);
                    let rest = concat_map(cs.subrange(k + 1, cs.len() as int), cursor_fn());
                    assert(concat_map(cs.subrange(k as int, cs.len() as int), cursor_fn()) + l3
                        =~= spec_u64_to_le_bytes(item.file_index as u64) + (spec_u64_to_le_bytes(
                        item.byte_offset as u64,
                    ) + (rest + l3)));
                    lemma_starts_at_split(
                        bytes@,
                        pos as int,
                        spec_u64_to_le_bytes(item.file_index as u64),
                        spec_u64_to_le_bytes(item.byte_offset as u64) + (rest + l3),
                    );
                    lemma_starts_at_split(
                        bytes@,
                        pos + 8,
                        spec_u64_to_le_bytes(item.byte_offset as u64),
                        rest + l3,
                    );
                }
            }
            let (fi, p1) = match read_u64(bytes, pos) {
                Some(x) => x,
                None => return None,
            };
            let (off, p2) = match read_u64(bytes, p1) {
                Some(x) => x,
                None => return None,
            };
            cursors.push(ReaderCursor { file_index: fi as usize, byte_offset: off as usize });
            proof {
                lemma_auto_spec_u64_to_from_le_bytes();
                lemma_item_lens();
                if valid {
                    assert(cursors@ =~= cs.take(k + 1));
                }
            }
            pos = p2;
            k += 1;
        }
        proof {
            lemma_auto_spec_u64_to_from_le_bytes();
            lemma_item_lens();
            if valid {
                assert(cs.subrange(cs.len() as int, cs.len() as int) =~= Seq::<ReaderCursor>::empty());
                assert(concat_map(Seq::<ReaderCursor>::empty(), cursor_fn()) =~= Seq::<u8>::empty());
                assert(Seq::<u8>::empty() + l3 =~= l3);
                assert(cs.take(cs.len() as int) =~= cs);
                assert(l3 =~= spec_u64_to_le_bytes(tv.len() as u64) + concat_map(tv, table_fn()));
                lemma_starts_at_split(
                    bytes@,
                    pos as int,
                    spec_u64_to_le_bytes(tv.len() as u64),
                    concat_map(tv, table_fn()),
                );
                lemma_concat_map_len(tv, table_fn());
                assert(tv.subrange(0, tv.len() as int) == tv);
            }
        }
        let (n, next) = match read_u64(bytes, pos) {
            Some(x) => x,
            None => return None,
        };
        pos = next;
        let mut tables: Vec<Vec<(String, u64)>> = Vec::new();
        let mut k: u64 = 0;
        while k < n
            invariant
                total == bytes@.len(),
                valid == (exists|c: Checkpoint| checkpoint_bytes(c) == bytes@),
                pos <= bytes@.len(),
                k <= n,
                valid ==> n == tv.len() && tables@.map_values(
                    |t: Vec<(String, u64)>| entries_view(t@),
                ) == tv.take(k as int) && starts_at(
                    bytes@,
                    pos as int,
                    concat_map(tv.subrange(k as int, tv.len() as int), table_fn()),
                ),
            decreases n - k,
        {
            let ghost ev = tv[k as int];
            let ghost later = concat_map(tv.subrange(k + 1, tv.len() as int), table_fn());
            proof {
                lemma_auto_spec_u64_to_from_le_bytes();
                lemma_item_lens();
                if valid {
                    lemma_concat_map_from(tv, table_fn(), k as int);
                    assert(concat_map(tv.subrange(k as int, tv.len() as int), table_fn())
                        =~= spec_u64_to_le_bytes(ev.len() as u64) + (concat_map(ev, entry_fn())
                        + later));
                    lemma_starts_at_split(
                        bytes@,
                        pos as int,
                        spec_u64_to_le_bytes(ev.len() as u64),
                        concat_map(ev, entry_fn()) + later,
                    );
                    lemma_concat_map_len(ev, entry_fn());
                    assert(ev.subrange(0, ev.len() as int) == ev);
                }
            }
            let (m, p1) = match read_u64(bytes, pos) {
                Some(x) => x,
                None => return None,
            };
            pos = p1;
            let mut es: Vec<(String, u64)> = Vec::new();
            let mut j: u64 = 0;
            while j < m
                invariant
                    total == bytes@.len(),
                    valid == (exists|c: Checkpoint| checkpoint_bytes(c) == bytes@),
                valid == (exists|c: Checkpoint| checkpoint_bytes(c) == bytes@),
                    pos <= bytes@.len(),
                    j <= m,
                    valid ==> m == ev.len() && entries_view(es@) == ev.take(j as int) && starts_at(
                        bytes@,
                        pos as int,
                        concat_map(ev.subrange(j as int, ev.len() as int), entry_fn()) + later,
                    ),
                decreases m - j,
            {
                let ghost e = ev[j as int];
                proof {
                    lemma_auto_spec_u64_to_from_le_bytes();
                    lemma_item_lens();
                    if valid {
                        lemma_concat_map_from(ev, entry_fn(), j as int);
                        let rest = concat_map(ev.subrange(j + 1, ev.len() as int), entry_fn());
                        assert(concat_map(ev.subrange(j as int, ev.len() as int), entry_fn()) + later
                            =~= text_bytes(e.0) + (spec_u64_to_le_bytes(e.1) + (rest + later)));
                        lemma_starts_at_split(
                            bytes@,
                            pos as int,
                            text_bytes(e.0),
                            spec_u64_to_le_bytes(e.1) + (rest + later),
                        );
                        lemma_starts_at_split(
                            bytes@,
                            pos + text_bytes(e.0).len(),
                            spec_u64_to_le_bytes(e.1),
                            rest + later,
                        );
                    }
                }
                let (t, p2) = match read_text(bytes, pos, Ghost(e.0)) {
                    Some(x) => x,
                    None => return None,
                };
                let (cnt, p3) = match read_u64(bytes, p2) {
                    Some(x) => x,
                    None => return None,
                };
                es.push((t, cnt));
                proof {
                    lemma_auto_spec_u64_to_from_le_bytes();
                    lemma_item_lens();
                    if valid {
                        assert(entries_view(es@) =~= ev.take(j + 1));
                    }
                }
                pos = p3;
                j += 1;
            }
            proof {
                lemma_auto_spec_u64_to_from_le_bytes();
                lemma_item_lens();
                if valid {
                    assert(ev.subrange(ev.len() as int, ev.len() as int) =~= Seq::<(Seq<char>, u64)>::empty());
                    assert(concat_map(Seq::<(Seq<char>, u64)>::empty(), entry_fn()) =~= Seq::<u8>::empty());
                    assert(Seq::<u8>::empty() + later =~= later);
                    assert(ev.take(ev.len() as int) =~= ev);
                }
            }
            tables.push(es);
            proof {
                lemma_auto_spec_u64_to_from_le_bytes();
                lemma_item_lens();
                if valid {
                    assert(tables@.map_values(|t: Vec<(String, u64)>| entries_view(t@)) =~= tv.take(
                        k + 1,
                    ));
                }
            }
            k += 1;
        }
        let r = Checkpoint { buffer, cursors, tables };
        proof {
            lemma_auto_spec_u64_to_from_le_bytes();
            lemma_item_lens();
            if valid {
                assert(bv.take(bv.len() as int) =~= bv);
                assert(tv.take(tv.len() as int) =~= tv);
                assert(buffer_view(r) == bv);
                assert(tables_view(r) == tv);
                assert(checkpoint_bytes(r) == checkpoint_bytes(c));
            }
        }
        Some(r)
    }

    /// Reads a checkpoint back from its stored form. Bytes that are not the
    /// stored form of any checkpoint read as corrupt: nothing is returned.
    pub fn decode(bytes: &Vec<u8>) -> (r: Option<Checkpoint>)
        ensures
            r matches Some(c) ==> checkpoint_bytes(c) == bytes@,
            (exists|c: Checkpoint| checkpoint_bytes(c) == bytes@) ==> r is Some,
    {
        match Checkpoint::parse(bytes) {
            Some(c) => {
                let again = c.encode();
                if same_bytes(&again, bytes) {
                    Some(c)
                } else {
                    None
                }
            },
            None => None,
        }
    }
}

} // verus!
