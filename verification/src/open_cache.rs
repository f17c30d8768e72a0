//! Who decodes a commit, and who is handed the decode of another.
//!
//! Decodes are numbered, and so are build locks: a caller that finds no decode under its key takes
//! the key's lock, and only the caller that holds the lock decodes. The numbers stand for values and
//! guards that the callers keep, and are theirs to give: no two guards in use have one number. A
//! decode is listed for as long as somebody holds it.

use crate::path_parts::{is_same_path, lemma_same_path, plainly};
use vstd::prelude::*;
use vstd::string::*;

verus! {

/// What names one decode: the overlay's file and the directory of its segments.
pub struct OpenKey {
    pub overlay_path: String,
    pub segments_root: String,
}

/// A key is its two paths, however they are spelled.
impl View for OpenKey {
    type V = (Seq<char>, Seq<char>);

    open spec fn view(&self) -> (Seq<char>, Seq<char>) {
        (plainly(self.overlay_path@), plainly(self.segments_root@))
    }
}

impl OpenKey {
    /// The key of an overlay and a segment directory.
    pub fn new(overlay_path: &str, segments_root: &str) -> (k: OpenKey)
        ensures
            k.overlay_path@ == overlay_path@,
            k.segments_root@ == segments_root@,
    {
        OpenKey { overlay_path: overlay_path.to_owned(), segments_root: segments_root.to_owned() }
    }

    fn same(&self, other: &OpenKey) -> (r: bool)
        ensures
            r == (self@ == other@),
    {
        proof {
            lemma_same_path(self.overlay_path@, other.overlay_path@);
            lemma_same_path(self.segments_root@, other.segments_root@);
        }
        is_same_path(self.overlay_path.as_str(), other.overlay_path.as_str()) && is_same_path(
            self.segments_root.as_str(),
            other.segments_root.as_str(),
        )
    }

    fn copy(&self) -> (k: OpenKey)
        ensures
            k@ == self@,
    {
        OpenKey {
            overlay_path: self.overlay_path.clone(),
            segments_root: self.segments_root.clone(),
        }
    }
}

/// The number that a table gives a key, from entry `i` on.
pub open spec fn number_from(table: Seq<(OpenKey, u64)>, key: (Seq<char>, Seq<char>), i: int) -> Option<
    u64,
>
    decreases table.len() - i,
{
    if i < 0 || i >= table.len() {
        None
    } else if table[i].0@ == key {
        Some(table[i].1)
    } else {
        number_from(table, key, i + 1)
    }
}

/// Whether no key stands in a table twice.
pub open spec fn keys_once(table: Seq<(OpenKey, u64)>) -> bool {
    forall|i: int, j: int|
        #![trigger table[i], table[j]]
        0 <= i < j < table.len() ==> table[i].0@ != table[j].0@
}

proof fn lemma_number(table: Seq<(OpenKey, u64)>, key: (Seq<char>, Seq<char>), i: int)
    requires
        0 <= i <= table.len(),
    ensures
        (match number_from(table, key, i) {
            Some(n) => exists|k: int|
                i <= k < table.len() && (#[trigger] table[k]).0@ == key && table[k].1 == n,
            None => forall|k: int| i <= k < table.len() ==> (#[trigger] table[k]).0@ != key,
        }),
    decreases table.len() - i,
{
    if i < table.len() {
        lemma_number(table, key, i + 1);
        if table[i].0@ != key {
            match number_from(table, key, i + 1) {
                Some(n) => {
                    let k = choose|k: int|
                        i + 1 <= k < table.len() && (#[trigger] table[k]).0@ == key && table[k].1
                            == n;
                    assert(i <= k);
                },
                None => {},
            }
        }
    }
}

proof fn lemma_number_at(table: Seq<(OpenKey, u64)>, key: (Seq<char>, Seq<char>), i: int, k: int)
    requires
        keys_once(table),
        0 <= i <= k < table.len(),
        table[k].0@ == key,
    ensures
        number_from(table, key, i) == Some(table[k].1),
    decreases k - i,
{
    if i < k {
        assert(table[i].0@ != table[k].0@);
        lemma_number_at(table, key, i + 1, k);
    }
}

fn find_key(table: &Vec<(OpenKey, u64)>, key: &OpenKey) -> (r: Option<usize>)
    ensures
        (match r {
            Some(i) => i < table@.len() && table@[i as int].0@ == key@ && number_from(
                table@,
                key@,
                0,
            ) == Some(table@[i as int].1),
            None => number_from(table@, key@, 0) is None,
        }),
{
    let mut i: usize = 0;
    while i < table.len()
        invariant
            i <= table@.len(),
            number_from(table@, key@, 0) == number_from(table@, key@, i as int),
        decreases table.len() - i,
    {
        if table[i].0.same(key) {
            return Some(i);
        }
        i += 1;
    }
    None
}

/// A finished decode, and whether later callers may be handed it.
pub struct Opened {
    pub value: u64,
    pub shareable: bool,
}

/// What a caller that asks for a key is handed.
#[derive(Clone, Copy, Debug, PartialEq, Eq, Structural)]
pub enum Asked {
    /// The decode that is held.
    Held(u64),
    /// The lock to wait for.
    Wait(u64),
}

/// What a caller that has its lock is told.
#[derive(Clone, Copy, Debug, PartialEq, Eq, Structural)]
pub enum Resumed {
    /// To take this decode: another has listed it, and the lock is given back.
    Held(u64),
    /// To open.
    Open,
}

/// The decodes that are held and the locks that are taken.
pub struct OpenCache {
    pub live: Vec<(OpenKey, u64)>,
    pub gates: Vec<(OpenKey, u64)>,
}

impl OpenCache {
    /// No key stands twice.
    pub open spec fn wf(&self) -> bool {
        &&& keys_once(self.live@)
        &&& keys_once(self.gates@)
    }

    /// The decode held under a key.
    pub open spec fn held(&self, key: (Seq<char>, Seq<char>)) -> Option<u64> {
        number_from(self.live@, key, 0)
    }

    /// The lock taken for a key.
    pub open spec fn gate(&self, key: (Seq<char>, Seq<char>)) -> Option<u64> {
        number_from(self.gates@, key, 0)
    }

    /// A cache that holds nothing.
    pub fn new() -> (c: OpenCache)
        ensures
            c.wf(),
            forall|k: (Seq<char>, Seq<char>)| #[trigger] c.held(k) is None,
            forall|k: (Seq<char>, Seq<char>)| #[trigger] c.gate(k) is None,
    {
        OpenCache { live: Vec::new(), gates: Vec::new() }
    }

    /// The decode held under a key. Asking changes nothing.
    pub fn lookup(&self, key: &OpenKey) -> (r: Option<u64>)
        ensures
            r == self.held(key@),
    {
        match find_key(&self.live, key) {
            Some(i) => Some(self.live[i].1),
            None => None,
        }
    }

    /// The lock of a key: the one already taken for it, or the caller's own.
    pub fn take_gate(&mut self, key: &OpenKey, own: u64) -> (gate: u64)
        requires
            old(self).wf(),
        ensures
            final(self).wf(),
            final(self).live == old(self).live,
            final(self).gate(key@) == Some(gate),
            forall|k: (Seq<char>, Seq<char>)|
                k != key@ ==> #[trigger] final(self).gate(k) == old(self).gate(k),
            (match old(self).gate(key@) {
                Some(g) => gate == g,
                None => gate == own,
            }),
    {
        match find_key(&self.gates, key) {
            Some(i) => self.gates[i].1,
            None => {
                let ghost was = self.gates@;
                proof {
                    lemma_number(was, key@, 0);
                }
                let entry = (key.copy(), own);
                self.gates.push(entry);
                proof {
                    lemma_number_at(self.gates@, key@, 0, was.len() as int);
                    assert forall|k: (Seq<char>, Seq<char>)| k != key@ implies #[trigger] self.gate(
                        k,
                    ) == number_from(was, k, 0) by {
                        lemma_pushed(was, entry, k, 0);
                    }
                }
                own
            },
        }
    }

    /// Gives a lock back. A lock that is no longer the key's own is left to whoever holds it.
    pub fn release_gate(&mut self, key: &OpenKey, gate: u64)
        requires
            old(self).wf(),
        ensures
            final(self).wf(),
            final(self).live == old(self).live,
            final(self).gate(key@) == (if old(self).gate(key@) == Some(gate) {
                None
            } else {
                old(self).gate(key@)
            }),
            forall|k: (Seq<char>, Seq<char>)|
                k != key@ ==> #[trigger] final(self).gate(k) == old(self).gate(k),
    {
        match find_key(&self.gates, key) {
            Some(i) => {
                if self.gates[i].1 == gate {
                    let ghost was = self.gates@;
                    let _gone = self.gates.remove(i);
                    proof {
                        lemma_removed(was, i as int);
                        assert forall|k: (Seq<char>, Seq<char>)| k != key@ implies #[trigger] self.gate(
                            k,
                        ) == number_from(was, k, 0) by {
                            lemma_removed_number(was, i as int, k);
                        }
                    }
                }
            },
            None => {},
        }
    }

    /// Lists a finished decode under its key, and gives the lock back.
    pub fn publish(&mut self, key: &OpenKey, decode: u64, gate: u64)
        requires
            old(self).wf(),
        ensures
            final(self).wf(),
            final(self).held(key@) == Some(decode),
            forall|k: (Seq<char>, Seq<char>)|
                k != key@ ==> #[trigger] final(self).held(k) == old(self).held(k),
            final(self).gate(key@) == (if old(self).gate(key@) == Some(gate) {
                None
            } else {
                old(self).gate(key@)
            }),
            forall|k: (Seq<char>, Seq<char>)|
                k != key@ ==> #[trigger] final(self).gate(k) == old(self).gate(k),
    {
        self.forget(key);
        let ghost bare = *self;
        let ghost was = self.live@;
        proof {
            lemma_number(was, key@, 0);
        }
        let entry = (key.copy(), decode);
        self.live.push(entry);
        proof {
            lemma_number_at(self.live@, key@, 0, was.len() as int);
            assert forall|k: (Seq<char>, Seq<char>)| k != key@ implies #[trigger] self.held(k)
                == number_from(was, k, 0) by {
                lemma_pushed(was, entry, k, 0);
            }
        }
        let ghost listed = *self;
        self.release_gate(key, gate);
        proof {
            assert forall|k: (Seq<char>, Seq<char>)| k != key@ implies #[trigger] self.held(k)
                == old(self).held(k) by {
                assert(listed.held(k) == number_from(was, k, 0));
                assert(bare.held(k) == old(self).held(k));
            }
        }
    }

    /// Whether `post` is this cache without the decode of a key.
    pub open spec fn forgets(&self, key: (Seq<char>, Seq<char>), post: OpenCache) -> bool {
        &&& post.gates == self.gates
        &&& post.held(key) is None
        &&& forall|k: (Seq<char>, Seq<char>)| k != key ==> #[trigger] post.held(k) == self.held(k)
    }

    /// Takes off the list a decode that nobody holds any more.
    pub fn forget(&mut self, key: &OpenKey)
        requires
            old(self).wf(),
        ensures
            final(self).wf(),
            old(self).forgets(key@, *final(self)),
    {
        match find_key(&self.live, key) {
            Some(i) => {
                let ghost was = self.live@;
                let _gone = self.live.remove(i);
                proof {
                    lemma_removed(was, i as int);
                    assert forall|k: (Seq<char>, Seq<char>)| k != key@ implies #[trigger] self.held(
                        k,
                    ) == number_from(was, k, 0) by {
                        lemma_removed_number(was, i as int, k);
                    }
                }
            },
            None => {},
        }
    }

    /// Whether `post` is this cache with a lock given back: the key's own, and no other.
    pub open spec fn gives_back(&self, key: (Seq<char>, Seq<char>), gate: u64, post: OpenCache) -> bool {
        &&& post.gate(key) == (if self.gate(key) == Some(gate) {
            None
        } else {
            self.gate(key)
        })
        &&& forall|k: (Seq<char>, Seq<char>)| k != key ==> #[trigger] post.gate(k) == self.gate(k)
    }

    /// Whether `r` answers a caller that asks for a key, and `post` is the cache behind it: the decode
    /// that is held, with nothing changed; or the key's lock to wait for, the caller's own where it
    /// has none.
    pub open spec fn answers_ask(
        &self,
        key: (Seq<char>, Seq<char>),
        own: u64,
        post: OpenCache,
        r: Asked,
    ) -> bool {
        match r {
            Asked::Held(decode) => self.held(key) == Some(decode) && post == *self,
            Asked::Wait(gate) => {
                &&& self.held(key) is None
                &&& post.live == self.live
                &&& post.gate(key) == Some(gate)
                &&& forall|k: (Seq<char>, Seq<char>)|
                    k != key ==> #[trigger] post.gate(k) == self.gate(k)
                &&& match self.gate(key) {
                    Some(g) => gate == g,
                    None => gate == own,
                }
            },
        }
    }

    /// Whether `r` answers a caller that has its lock, and `post` is the cache behind it: the decode
    /// that another has listed meanwhile, with the lock given back; or that the caller is to open.
    pub open spec fn answers_resume(
        &self,
        key: (Seq<char>, Seq<char>),
        gate: u64,
        post: OpenCache,
        r: Resumed,
    ) -> bool {
        match r {
            Resumed::Held(decode) => self.held(key) == Some(decode) && post.live == self.live
                && self.gives_back(key, gate, post),
            Resumed::Open => self.held(key) is None && post == *self,
        }
    }

    /// Whether `post` is this cache once an open under a lock has ended: a decode that may be shared
    /// is listed, and on every way out the lock is given back.
    pub open spec fn settles(
        &self,
        key: (Seq<char>, Seq<char>),
        gate: u64,
        decode: Option<Opened>,
        post: OpenCache,
    ) -> bool {
        &&& post.held(key) == (if decode is Some && decode->0.shareable {
            Some(decode->0.value)
        } else {
            self.held(key)
        })
        &&& forall|k: (Seq<char>, Seq<char>)| k != key ==> #[trigger] post.held(k) == self.held(k)
        &&& self.gives_back(key, gate, post)
    }

    /// A caller asks for a key: it is handed the decode that is held, or the lock to wait for.
    /// `own` is the number of a lock that the caller brings, should the key have none.
    pub fn ask(&mut self, key: &OpenKey, own: u64) -> (r: Asked)
        requires
            old(self).wf(),
        ensures
            final(self).wf(),
            old(self).answers_ask(key@, own, *final(self), r),
    {
        match self.lookup(key) {
            Some(decode) => Asked::Held(decode),
            None => Asked::Wait(self.take_gate(key, own)),
        }
    }

    /// A caller that waited has the lock: it is handed the decode that another has listed meanwhile,
    /// and the lock is given back; or it is to open.
    pub fn resumed(&mut self, key: &OpenKey, gate: u64) -> (r: Resumed)
        requires
            old(self).wf(),
        ensures
            final(self).wf(),
            old(self).answers_resume(key@, gate, *final(self), r),
    {
        match self.lookup(key) {
            Some(decode) => {
                self.release_gate(key, gate);
                Resumed::Held(decode)
            },
            None => Resumed::Open,
        }
    }

    /// Takes in how an open under a lock ended. A decode that is incomplete is never listed, so that
    /// the next caller may still get a complete one; nor is one that failed.
    pub fn opened(&mut self, key: &OpenKey, gate: u64, decode: Option<Opened>)
        requires
            old(self).wf(),
        ensures
            final(self).wf(),
            old(self).settles(key@, gate, decode, *final(self)),
    {
        match decode {
            Some(done) => {
                if done.shareable {
                    self.publish(key, done.value, gate);
                } else {
                    self.release_gate(key, gate);
                }
            },
            None => {
                self.release_gate(key, gate);
            },
        }
    }
}

/// A failed open is not listed and leaves the key usable: nothing is held under the key, no lock is
/// left behind, the other keys are as they were, and the next caller is told to open.
pub proof fn lemma_failed_open_leaves_the_key_usable(
    before: OpenCache,
    asked: OpenCache,
    resumed: OpenCache,
    after: OpenCache,
    key: (Seq<char>, Seq<char>),
    own: u64,
    gate: u64,
)
    requires
        before.held(key) is None,
        before.gate(key) is None,
        before.answers_ask(key, own, asked, Asked::Wait(gate)),
        asked.answers_resume(key, gate, resumed, Resumed::Open),
        resumed.settles(key, gate, None, after),
    ensures
        after.held(key) is None,
        after.gate(key) is None,
        forall|k: (Seq<char>, Seq<char>)|
            k != key ==> #[trigger] after.held(k) == before.held(k),
        forall|k: (Seq<char>, Seq<char>)|
            k != key ==> #[trigger] after.gate(k) == before.gate(k),
        after.tells_to_open(key),
{
    assert forall|k: (Seq<char>, Seq<char>)| k != key implies #[trigger] after.held(k)
        == before.held(k) by {
        assert(after.held(k) == resumed.held(k));
    }
    assert forall|k: (Seq<char>, Seq<char>)| k != key implies #[trigger] after.gate(k)
        == before.gate(k) by {
        assert(after.gate(k) == resumed.gate(k));
        assert(asked.gate(k) == before.gate(k));
    }
}

impl OpenCache {
    /// Whether a caller that asks for a key is handed a decode, and nothing changes by it.
    pub open spec fn hands_out(&self, key: (Seq<char>, Seq<char>), decode: u64) -> bool {
        forall|own: u64, post: OpenCache, r: Asked|
            #![trigger self.answers_ask(key, own, post, r)]
            self.answers_ask(key, own, post, r) ==> r == Asked::Held(decode) && post == *self
    }

    /// Whether a caller that asks for a key, where no other is about, is told to open.
    pub open spec fn tells_to_open(&self, key: (Seq<char>, Seq<char>)) -> bool {
        &&& forall|own: u64, post: OpenCache, r: Asked|
            #![trigger self.answers_ask(key, own, post, r)]
            self.answers_ask(key, own, post, r) ==> r is Wait
        &&& forall|own: u64, asked: OpenCache, gate: u64, post: OpenCache, r: Resumed|
            #![trigger self.answers_ask(key, own, asked, Asked::Wait(gate)), asked.answers_resume(key, gate, post, r)]
            self.answers_ask(key, own, asked, Asked::Wait(gate)) && asked.answers_resume(
                key,
                gate,
                post,
                r,
            ) ==> r == Resumed::Open
    }

    /// Whether `post` is this cache after something was done for a key: asking, resuming, the end of
    /// an open, or forgetting its decode.
    pub open spec fn acts_on(&self, key: (Seq<char>, Seq<char>), post: OpenCache) -> bool {
        ||| exists|own: u64, r: Asked| #[trigger] self.answers_ask(key, own, post, r)
        ||| exists|gate: u64, r: Resumed| #[trigger] self.answers_resume(key, gate, post, r)
        ||| exists|gate: u64, decode: Option<Opened>| #[trigger]
            self.settles(key, gate, decode, post)
        ||| self.forgets(key, post)
    }

    /// Whether `post` is this cache after something that leaves the decode of a key alone: anything
    /// done for another key, or asking and resuming for this one.
    pub open spec fn passes_by(&self, key: (Seq<char>, Seq<char>), post: OpenCache) -> bool {
        ||| exists|k: (Seq<char>, Seq<char>)| k != key && #[trigger] self.acts_on(k, post)
        ||| exists|own: u64, r: Asked| #[trigger] self.answers_ask(key, own, post, r)
        ||| exists|gate: u64, r: Resumed| #[trigger] self.answers_resume(key, gate, post, r)
    }
}

/// A shared decode is what every caller is handed until it is forgotten, whatever is done for other
/// keys and however often the key itself is asked for: through any course of such steps the caller is
/// handed it, and without one a caller is told to open.
pub proof fn lemma_a_live_decode_is_handed_out(
    course: Seq<OpenCache>,
    key: (Seq<char>, Seq<char>),
    n: int,
)
    requires
        0 <= n < course.len(),
        forall|i: int|
            0 <= i < course.len() - 1 ==> (#[trigger] course[i]).passes_by(key, course[i + 1]),
    ensures
        course[n].held(key) == course[0].held(key),
        (match course[0].held(key) {
            Some(decode) => course[n].hands_out(key, decode),
            None => course[n].tells_to_open(key),
        }),
    decreases n,
{
    if n > 0 {
        lemma_a_live_decode_is_handed_out(course, key, n - 1);
        assert(course[n - 1].passes_by(key, course[n]));
        lemma_passing_keeps(course[n - 1], course[n], key);
    }
}

proof fn lemma_passing_keeps(c: OpenCache, post: OpenCache, key: (Seq<char>, Seq<char>))
    requires
        c.passes_by(key, post),
    ensures
        post.held(key) == c.held(key),
{
    if exists|k: (Seq<char>, Seq<char>)| k != key && #[trigger] c.acts_on(k, post) {
        let k = choose|k: (Seq<char>, Seq<char>)| k != key && #[trigger] c.acts_on(k, post);
        assert(c.acts_on(k, post));
    }
}

/// A decode that may be shared is listed by the end of its open, and handed out from then on; one that
/// is forgotten, or that may not be shared where none was held, leaves the next caller to open.
pub proof fn lemma_an_end_of_open_decides(
    before: OpenCache,
    key: (Seq<char>, Seq<char>),
    gate: u64,
    decode: Option<Opened>,
    after: OpenCache,
    gone: OpenCache,
)
    requires
        before.held(key) is None,
        before.settles(key, gate, decode, after),
        after.forgets(key, gone),
    ensures
        decode is Some && decode->0.shareable ==> after.hands_out(key, decode->0.value),
        !(decode is Some && decode->0.shareable) ==> after.tells_to_open(key),
        gone.tells_to_open(key),
{
}

/// Callers that ask for one key before any of them has opened wait for one lock, and the decode that
/// the first lists is what the others are handed.
pub proof fn lemma_one_caller_opens(
    before: OpenCache,
    first: OpenCache,
    second: OpenCache,
    listed: OpenCache,
    key: (Seq<char>, Seq<char>),
    own: (u64, u64),
    gate: u64,
    other: u64,
    value: u64,
)
    requires
        before.answers_ask(key, own.0, first, Asked::Wait(gate)),
        first.answers_ask(key, own.1, second, Asked::Wait(other)),
        second.settles(key, gate, Some(Opened { value, shareable: true }), listed),
    ensures
        gate == other,
        listed.gate(key) is None,
        forall|post: OpenCache, r: Resumed|
            #![trigger listed.answers_resume(key, other, post, r)]
            listed.answers_resume(key, other, post, r) ==> r == Resumed::Held(value),
{
}

proof fn lemma_pushed(
    table: Seq<(OpenKey, u64)>,
    entry: (OpenKey, u64),
    key: (Seq<char>, Seq<char>),
    i: int,
)
    requires
        0 <= i <= table.len(),
        entry.0@ != key,
    ensures
        number_from(table.push(entry), key, i) == number_from(table, key, i),
    decreases table.len() - i,
{
    if i < table.len() {
        lemma_pushed(table, entry, key, i + 1);
        assert(table.push(entry)[i] == table[i]);
    } else {
        assert(table.push(entry)[i] == entry);
        assert(number_from(table.push(entry), key, i + 1) is None);
    }
}

proof fn lemma_removed(table: Seq<(OpenKey, u64)>, at: int)
    requires
        keys_once(table),
        0 <= at < table.len(),
    ensures
        keys_once(table.remove(at)),
        number_from(table.remove(at), table[at].0@, 0) is None,
{
    let rest = table.remove(at);
    let old_at = |i: int|
        if i < at {
            i
        } else {
            i + 1
        };
    assert forall|i: int, j: int|
        #![trigger rest[i], rest[j]]
        0 <= i < j < rest.len() implies rest[i].0@ != rest[j].0@ by {
        assert(rest[i] == table[old_at(i)] && rest[j] == table[old_at(j)]);
    }
    lemma_number(rest, table[at].0@, 0);
    assert forall|k: int| 0 <= k < rest.len() implies (#[trigger] rest[k]).0@ != table[at].0@ by {
        assert(rest[k] == table[old_at(k)]);
        if k < at {
            assert(table[k].0@ != table[at].0@);
        } else {
            assert(table[at].0@ != table[k + 1].0@);
        }
    }
}

proof fn lemma_removed_number(table: Seq<(OpenKey, u64)>, at: int, key: (Seq<char>, Seq<char>))
    requires
        keys_once(table),
        0 <= at < table.len(),
        table[at].0@ != key,
    ensures
        number_from(table.remove(at), key, 0) == number_from(table, key, 0),
{
    let rest = table.remove(at);
    lemma_removed(table, at);
    lemma_number(table, key, 0);
    lemma_number(rest, key, 0);
    match number_from(table, key, 0) {
        Some(n) => {
            let k = choose|k: int|
                0 <= k < table.len() && (#[trigger] table[k]).0@ == key && table[k].1 == n;
            let j = if k < at {
                k
            } else {
                k - 1
            };
            assert(rest[j] == table[k]);
            lemma_number_at(rest, key, 0, j);
        },
        None => {
            assert forall|k: int| 0 <= k < rest.len() implies (#[trigger] rest[k]).0@ != key by {
                let o = if k < at {
                    k
                } else {
                    k + 1
                };
                assert(rest[k] == table[o]);
            }
        },
    }
}

} // verus!
