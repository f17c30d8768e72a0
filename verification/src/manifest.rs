//! What is known of one segment store: its provider and every enrichment column ever written to it.

use crate::order::{sorted_texts, texts_ascend};
use crate::segment::lists_text;
use vstd::prelude::*;
use vstd::string::*;

verus! {

/// Current manifest schema version. Bump on an incompatible change.
pub const SCHEMA_VERSION: u32 = 1;

/// What is known of one segment store.
#[derive(Debug)]
pub struct Manifest {
    /// Schema version.
    pub schema_version: u32,
    /// The provider whose segments the store holds.
    pub provider_id: String,
    /// The enrichment columns ever written, ascending, each once.
    pub column_registry: Vec<String>,
    /// How many segments were ever written.
    pub segment_count: u64,
}

impl Default for Manifest {
    /// The manifest of a store that nothing was written to.
    fn default() -> (m: Manifest)
        ensures
            m.schema_version == 0,
            m.provider_id@.len() == 0,
            m.column_registry@.len() == 0,
            m.segment_count == 0,
    {
        Manifest {
            schema_version: 0,
            provider_id: String::new(),
            column_registry: Vec::new(),
            segment_count: 0,
        }
    }
}

impl Manifest {
    /// The columns ascend, each once.
    pub open spec fn wf(&self) -> bool {
        texts_ascend(self.column_registry@)
    }

    /// Records a build: its provider, the columns it wrote and how many segments.
    pub fn update(&mut self, provider_id: &str, new_columns: &Vec<String>, segments_written: u64)
        ensures
            final(self).wf(),
            final(self).schema_version == SCHEMA_VERSION,
            final(self).provider_id@ == provider_id@,
            forall|c: Seq<char>| #[trigger]
                lists_text(final(self).column_registry@, c) == (lists_text(
                    old(self).column_registry@,
                    c,
                ) || lists_text(new_columns@, c)),
            final(self).segment_count == (if old(self).segment_count + segments_written
                > u64::MAX {
                u64::MAX
            } else {
                (old(self).segment_count + segments_written) as u64
            }),
    {
        self.schema_version = SCHEMA_VERSION;
        self.provider_id = provider_id.to_owned();
        let mut all: Vec<String> = Vec::new();
        core::mem::swap(&mut all, &mut self.column_registry);
        let ghost start = all@;
        let mut i: usize = 0;
        while i < new_columns.len()
            invariant
                i <= new_columns@.len(),
                forall|c: Seq<char>| #[trigger]
                    lists_text(all@, c) == (lists_text(start, c) || lists_text(
                        new_columns@.take(i as int),
                        c,
                    )),
            decreases new_columns.len() - i,
        {
            let ghost was = all@;
            all.push(new_columns[i].clone());
            proof {
                let head = new_columns@.take(i as int);
                let next = new_columns@[i as int];
                crate::columnar_storage::node_find::lemma_lists_push(was, all@.last(), all@, true);
                crate::columnar_storage::node_find::lemma_lists_push(
                    head,
                    next,
                    head.push(next),
                    true,
                );
                assert(new_columns@.take(i + 1) =~= head.push(next));
            }
            i += 1;
        }
        assert(new_columns@.take(new_columns@.len() as int) =~= new_columns@);
        self.column_registry = sorted_texts(&all);
        self.segment_count = self.segment_count.saturating_add(segments_written);
    }
}

} // verus!
