use vstd::prelude::*;
use crate::freq_table::{merge_models, FrequencyTable};
use crate::checkpoint::entries_model;
use crate::shared_buffer::SharedBuffer;
use crate::tokens::{first_group_matches, pattern_compiles, tally, tokenize};

verus! {

/// An aggregator worker: the batch it holds, its private table, its soft-stop
/// flag and its private queue.
pub struct AggregatorWorker {
    pattern: String,
    current: Option<String>,
    table: FrequencyTable,
    active: bool,
    private_queue: SharedBuffer<String>,
}

impl AggregatorWorker {
    pub closed spec fn wf(&self) -> bool {
        self.table.wf()
    }

    /// The token pattern.
    pub closed spec fn pattern(&self) -> Seq<char> {
        self.pattern@
    }

    /// The batch being worked on.
    pub closed spec fn current(&self) -> Option<Seq<char>> {
        match self.current {
            Some(s) => Some(s@),
            None => None,
        }
    }

    /// The private table's model.
    pub closed spec fn table(&self) -> Map<Seq<char>, u64> {
        self.table@
    }

    /// Whether the worker keeps waiting for work on an empty buffer.
    pub closed spec fn active(&self) -> bool {
        self.active
    }

    /// The private queue, oldest first.
    pub closed spec fn queue(&self) -> Seq<String> {
        self.private_queue@
    }

    /// An active worker with no batch, an empty table and an empty queue.
    pub fn new(pattern: String) -> (r: Self)
        ensures
            r.wf(),
            r.pattern() == pattern@,
            r.current() is None,
            r.table() == Map::<Seq<char>, u64>::empty(),
            r.active(),
            r.queue() == Seq::<String>::empty(),
    {
        AggregatorWorker {
            pattern,
            current: None,
            table: FrequencyTable::new(),
            active: true,
            private_queue: SharedBuffer::new(),
        }
    }

    /// Marks the worker active; called before its loop starts.
    pub fn activate(&mut self)
        ensures
            final(self).active(),
            final(self).wf() == old(self).wf(),
            final(self).pattern() == old(self).pattern(),
            final(self).current() == old(self).current(),
            final(self).table() == old(self).table(),
            final(self).queue() == old(self).queue(),
    {
        self.active = true;
    }

    /// Soft stop: the worker finishes what it holds and leaves once it finds
    /// no more work.
    pub fn stop_when_finished(&mut self)
        ensures
            !final(self).active(),
            final(self).wf() == old(self).wf(),
            final(self).pattern() == old(self).pattern(),
            final(self).current() == old(self).current(),
            final(self).table() == old(self).table(),
            final(self).queue() == old(self).queue(),
    {
        self.active = false;
    }

    /// Whether the worker is active.
    pub fn is_active(&self) -> (r: bool)
        ensures
            r == self.active(),
    {
        self.active
    }

    /// Whether the worker holds a batch.
    pub fn has_batch(&self) -> (r: bool)
        ensures
            r == self.current() is Some,
    {
        self.current.is_some()
    }

    /// Number of batches in the private queue.
    pub fn private_buf_size(&self) -> (r: usize)
        ensures
            r == self.queue().len(),
    {
        self.private_queue.len()
    }

    /// The first half of a loop turn: when no batch is held, takes the batch
    /// pushed last from `shared` (from the private queue when `isolated`).
    /// Returns whether the worker is still working: true while it holds a
    /// batch, otherwise whether it is active.
    pub fn fetch(&mut self, shared: &mut SharedBuffer<String>, isolated: bool) -> (r: bool)
        ensures
            final(self).wf() == old(self).wf(),
            final(self).pattern() == old(self).pattern(),
            final(self).table() == old(self).table(),
            final(self).active() == old(self).active(),
            old(self).current() is Some ==> r && final(self).current() == old(self).current()
                && final(self).queue() == old(self).queue() && *final(shared) == *old(shared),
            old(self).current() is None && !isolated ==> final(self).queue() == old(self).queue()
                && if old(shared)@.len() == 0 {
                r == old(self).active() && final(self).current() is None && final(shared)@ == old(
                    shared,
                )@
            } else {
                r && final(self).current() == Some(old(shared)@.last()@) && final(shared)@ == old(
                    shared,
                )@.drop_last()
            },
            old(self).current() is None && isolated ==> *final(shared) == *old(shared) && if old(
                self,
            ).queue().len() == 0 {
                r == old(self).active() && final(self).current() is None && final(self).queue()
                    == old(self).queue()
            } else {
                r && final(self).current() == Some(old(self).queue().last()@) && final(self).queue()
                    == old(self).queue().drop_last()
            },
    {
        if self.current.is_some() {
            return true;
        }
        let batch = if !isolated {
            shared.pop()
        } else {
            self.private_queue.pop()
        };
        match batch {
            Some(b) => {
                self.current = Some(b);
                true
            },
            None => self.active,
        }
    }

    /// The second half of a loop turn: tokenises the batch held, counts its
    /// tokens into the private table and lets the batch go. Returns false, and
    /// changes nothing, when the pattern does not compile.
    pub fn process_current(&mut self) -> (r: bool)
        requires
            old(self).wf(),
        ensures
            final(self).wf(),
            final(self).pattern() == old(self).pattern(),
            final(self).active() == old(self).active(),
            final(self).queue() == old(self).queue(),
            old(self).current() is None ==> r && final(self).current() is None && final(self).table()
                == old(self).table(),
            old(self).current() is Some ==> (r <==> pattern_compiles(old(self).pattern())),
            old(self).current() is Some && r ==> final(self).current() is None && final(self).table()
                == tally(
                old(self).table(),
                first_group_matches(old(self).pattern(), old(self).current()->Some_0),
            ),
            old(self).current() is Some && !r ==> final(self).current() == old(self).current()
                && final(self).table() == old(self).table(),
    {
        match &self.current {
            None => true,
            Some(text) => {
                match tokenize(&self.pattern, text) {
                    None => false,
                    Some(toks) => {
                        self.table.add_tokens(&toks);
                        self.current = None;
                        true
                    },
                }
            },
        }
    }

    /// Moves the batch pushed last in `shared` onto the private queue. Returns
    /// whether there was one.
    pub fn take_one(&mut self, shared: &mut SharedBuffer<String>) -> (r: bool)
        ensures
            final(self).wf() == old(self).wf(),
            final(self).pattern() == old(self).pattern(),
            final(self).current() == old(self).current(),
            final(self).table() == old(self).table(),
            final(self).active() == old(self).active(),
            r == (old(shared)@.len() > 0),
            r ==> final(shared)@ == old(shared)@.drop_last() && final(self).queue() == old(
                self,
            ).queue().push(old(shared)@.last()),
            !r ==> final(shared)@ == old(shared)@ && final(self).queue() == old(self).queue(),
    {
        match shared.pop() {
            Some(b) => {
                self.private_queue.push(b);
                true
            },
            None => false,
        }
    }

    /// Adds the private table into `target` and empties the private table. A
    /// second call adds nothing.
    pub fn collect(&mut self, target: &mut FrequencyTable)
        requires
            old(self).wf(),
            old(target).wf(),
        ensures
            final(self).wf(),
            final(target).wf(),
            final(target)@ == merge_models(old(target)@, old(self).table()),
            final(self).table() == Map::<Seq<char>, u64>::empty(),
            final(self).pattern() == old(self).pattern(),
            final(self).current() == old(self).current(),
            final(self).active() == old(self).active(),
            final(self).queue() == old(self).queue(),
    {
        self.table.merge_into(target);
        self.table.clear();
    }

    /// The private table's entries, as `FrequencyTable::entries` lists them.
    pub fn table_entries(&self) -> (r: Vec<(String, u64)>)
        requires
            self.wf(),
        ensures
            forall|i: int|
                0 <= i < r@.len() ==> self.table().contains_key(#[trigger] r@[i].0@)
                    && self.table()[r@[i].0@] == r@[i].1,
            forall|k: Seq<char>| #[trigger]
                self.table().contains_key(k) ==> exists|i: int|
                    0 <= i < r@.len() && #[trigger] r@[i].0@ == k,
            forall|i: int, j: int| 0 <= i < j < r@.len() ==> r@[i].0@ != r@[j].0@,
    {
        self.table.entries()
    }

    /// An active worker with no batch and an empty queue whose private table
    /// holds `entries`, a later entry overriding an earlier one of the same token.
    pub fn restore(pattern: String, entries: &Vec<(String, u64)>) -> (r: Self)
        ensures
            r.wf(),
            r.pattern() == pattern@,
            r.current() is None,
            r.table() == entries_model(entries@),
            r.active(),
            r.queue() == Seq::<String>::empty(),
    {
        let mut w = AggregatorWorker::new(pattern);
        let mut i: usize = 0;
        while i < entries.len()
            invariant
                w.wf(),
                w.pattern() == pattern@,
                w.current() is None,
                w.active(),
                w.queue() == Seq::<String>::empty(),
                i <= entries@.len(),
                w.table() == entries_model(entries@.take(i as int)),
            decreases entries@.len() - i,
        {
            w.table.put(entries[i].0.clone(), entries[i].1);
            proof {
                assert(entries@.take(i + 1).drop_last() == entries@.take(i as int));
            }
            i += 1;
        }
        proof {
            assert(entries@.take(entries@.len() as int) == entries@);
        }
        w
    }
}

} // verus!
