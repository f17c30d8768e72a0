//! The nodes that the bytes of an index are made of, and whether they can be walked.
//!
//! An index is a header, nodes, and a footer that holds the address of the root. A node is addressed
//! by its last byte and read downwards from there: a state byte, where needed the number of its
//! transitions, a byte of field sizes, where there are many transitions a table of 256 bytes, the
//! inputs, the targets and the outputs. Every target is a node at a lower address. Address nought is
//! a final node without transitions, which takes no bytes.

use crate::bytes::{le64, u64_at};
use vstd::prelude::*;

verus! {

/// The most keys that an index may list: as many as a list of them can hold in memory.
pub const MOST_KEYS: usize = usize::MAX / 64;

// ───────────────────────────── header and footer ─────────────────────────────

/// The format of an index: the first eight bytes.
pub open spec fn index_format(b: Seq<u8>) -> u64 {
    le64(b, 0)
}

/// Where the address of the root is stored: in the last eight bytes, before the checksum where the
/// format has one.
pub open spec fn root_field(b: Seq<u8>) -> int {
    if index_format(b) <= 2 {
        b.len() - 8
    } else {
        b.len() - 12
    }
}

/// The address of the root.
pub open spec fn root_of(b: Seq<u8>) -> u64 {
    le64(b, root_field(b))
}

/// Whether bytes begin and end as an index does: a known format, and a root that is the node without
/// bytes only where there are no other bytes.
pub open spec fn index_opens(b: Seq<u8>) -> bool {
    &&& b.len() >= 36
    &&& 1 <= index_format(b) <= 3
    &&& root_of(b) == 0 ==> index_format(b) == 3 && b.len() == 36
}

// ───────────────────────────── packed integers ─────────────────────────────

/// The little-endian integer of `n` bytes at `at`.
pub open spec fn packed(b: Seq<u8>, at: int, n: int) -> nat
    decreases n,
{
    if n <= 0 {
        0
    } else {
        b[at] as nat + 256 * packed(b, at + 1, n - 1)
    }
}

/// How many integers `n` bytes hold.
spec fn room(n: int) -> nat
    decreases n,
{
    if n <= 0 {
        1
    } else {
        256 * room(n - 1)
    }
}

proof fn lemma_packed_fits(b: Seq<u8>, at: int, n: int)
    ensures
        packed(b, at, n) < room(n),
    decreases n,
{
    if n > 0 {
        lemma_packed_fits(b, at + 1, n - 1);
    }
}

fn read_packed(b: &[u8], at: usize, n: usize) -> (r: u64)
    requires
        n <= 8,
        at + n <= b@.len(),
    ensures
        r == packed(b@, at as int, n as int),
    decreases n,
{
    if n == 0 {
        0
    } else {
        let len: usize = b.len();
        let rest: u64 = read_packed(b, at + 1, n - 1);
        proof {
            lemma_packed_fits(b@, at + 1, n - 1);
            reveal_with_fuel(room, 9);
            assert(room(7) == 0x100_0000_0000_0000);
            lemma_room_grows(n - 1, 7);
        }
        b[at] as u64 + 256 * rest
    }
}

proof fn lemma_room_grows(a: int, b: int)
    requires
        a <= b,
    ensures
        1 <= room(a) <= room(b),
    decreases b - a, b,
{
    if a < b {
        lemma_room_grows(a, b - 1);
    } else if b > 0 {
        lemma_room_grows(a - 1, b - 1);
    }
}

// ───────────────────────────── one node ─────────────────────────────

/// How a node is laid out.
pub struct Layout {
    /// How many transitions it has.
    pub count: int,
    /// Whether keys may end at it.
    pub is_final: bool,
    /// Whether its one transition leads to the node stored just below it.
    pub next: bool,
    /// The address of the byte of field sizes; of the last byte read where there is none.
    pub top: int,
    /// How many bytes its table takes.
    pub table: int,
    /// How many inputs are listed.
    pub inputs: int,
    /// How many bytes a target takes.
    pub tsize: int,
    /// How many bytes an output takes.
    pub osize: int,
}

/// How the node at address `a` is laid out.
pub open spec fn layout(b: Seq<u8>, a: int) -> Layout {
    if a <= 0 {
        Layout {
            count: 0,
            is_final: true,
            next: false,
            top: 0,
            table: 0,
            inputs: 0,
            tsize: 0,
            osize: 0,
        }
    } else {
        let state = b[a];
        let low = state % 64;
        let own = if low == 0 {
            1int
        } else {
            0int
        };
        if state >= 192 {
            Layout {
                count: 1,
                is_final: false,
                next: true,
                top: a - own,
                table: 0,
                inputs: 0,
                tsize: 0,
                osize: 0,
            }
        } else {
            let top = a - own - 1;
            let tsize = (b[top] / 16) as int;
            let osize = (b[top] % 16) as int;
            if state >= 128 {
                Layout { count: 1, is_final: false, next: false, top, table: 0, inputs: 0, tsize, osize }
            } else {
                let count = if low != 0 {
                    low as int
                } else if b[a - 1] == 1 {
                    256
                } else {
                    b[a - 1] as int
                };
                let table = if index_format(b) >= 2 && count > 32 {
                    256int
                } else {
                    0
                };
                Layout {
                    count,
                    is_final: state >= 64,
                    next: false,
                    top,
                    table,
                    inputs: count,
                    tsize,
                    osize,
                }
            }
        }
    }
}

impl Layout {
    /// Where the inputs end and the targets begin, downwards.
    pub open spec fn below_inputs(&self) -> int {
        self.top - self.table - self.inputs
    }

    /// Where the targets end and the outputs begin, downwards.
    pub open spec fn below_targets(&self) -> int {
        self.below_inputs() - self.count * self.tsize
    }

    /// The address of the lowest byte.
    pub open spec fn end(&self) -> int {
        self.below_targets() - self.count * self.osize - if self.is_final {
            self.osize
        } else {
            0
        }
    }
}

/// The number of transitions of a node.
pub open spec fn fan(b: Seq<u8>, a: int) -> int {
    layout(b, a).count
}

/// The input of transition `i`, of a node that lists its inputs.
pub open spec fn input_at(b: Seq<u8>, a: int, i: int) -> u8 {
    let l = layout(b, a);
    b[l.top - l.table - i - 1]
}

/// What the table of a node says of an input: which transition it is.
pub open spec fn table_at(b: Seq<u8>, a: int, v: int) -> u8 {
    let l = layout(b, a);
    b[l.top - l.table + v]
}

/// How far below the end of a node the target of transition `i` is stored to lie; nought stands for
/// the node without bytes.
pub open spec fn delta_at(b: Seq<u8>, a: int, i: int) -> nat {
    let l = layout(b, a);
    packed(b, l.below_inputs() - (i + 1) * l.tsize, l.tsize)
}

/// The node that transition `i` leads to.
pub open spec fn target_at(b: Seq<u8>, a: int, i: int) -> int {
    let l = layout(b, a);
    if l.next {
        l.end() - 1
    } else if delta_at(b, a, i) == 0 {
        0
    } else {
        l.end() - delta_at(b, a, i)
    }
}

/// What transition `i` adds to the value of a key.
pub open spec fn output_at(b: Seq<u8>, a: int, i: int) -> nat {
    let l = layout(b, a);
    packed(b, l.below_targets() - (i + 1) * l.osize, l.osize)
}

/// What a node adds to the value of a key that ends at it.
pub open spec fn final_output(b: Seq<u8>, a: int) -> nat {
    let l = layout(b, a);
    if l.is_final {
        packed(b, l.end(), l.osize)
    } else {
        0
    }
}

/// Whether the fields of the node at address `a` lie inside the bytes.
pub open spec fn node_framed(b: Seq<u8>, a: int) -> bool {
    let l = layout(b, a);
    &&& 0 < a < b.len()
    &&& 0 <= l.top
    &&& 0 <= l.end()
}

/// Whether the node at address `a` lies whole inside the bytes, with fields of sizes that can be
/// read.
pub open spec fn node_whole(b: Seq<u8>, a: int) -> bool {
    let l = layout(b, a);
    &&& node_framed(b, a)
    &&& l.tsize <= 8
    &&& l.osize <= 8
    &&& l.count > 0 && !l.next ==> l.tsize > 0
}

/// Whether the inputs that a node lists ascend strictly.
pub open spec fn inputs_ascend(b: Seq<u8>, a: int) -> bool {
    forall|i: int|
        0 <= i && i + 1 < layout(b, a).inputs ==> #[trigger] input_at(b, a, i) < input_at(
            b,
            a,
            i + 1,
        )
}

/// Whether the table of a node, where it has one, agrees with its inputs.
pub open spec fn table_agrees(b: Seq<u8>, a: int) -> bool {
    let l = layout(b, a);
    l.table > 0 ==> {
        &&& forall|i: int|
            0 <= i < l.count ==> table_at(b, a, (#[trigger] input_at(b, a, i)) as int) == i
        &&& forall|v: int|
            0 <= v < 256 && (#[trigger] table_at(b, a, v)) < l.count ==> input_at(
                b,
                a,
                table_at(b, a, v) as int,
            ) == v
    }
}

/// Whether a node is sound by itself: it is whole, its inputs ascend and its table agrees with them,
/// and every target lies at a lower address.
pub open spec fn node_plain(b: Seq<u8>, a: int) -> bool {
    &&& node_whole(b, a)
    &&& inputs_ascend(b, a)
    &&& table_agrees(b, a)
    &&& forall|i: int| 0 <= i < fan(b, a) ==> 0 <= #[trigger] target_at(b, a, i) < a
}

// ───────────────────────────── all nodes ─────────────────────────────

/// Whether a node is sound, and every node that its first `n` transitions lead to.
pub open spec fn sound_upto(b: Seq<u8>, a: int, n: int) -> bool
    decreases a, n,
{
    if n <= 0 {
        a == 0 || node_plain(b, a)
    } else {
        let t = target_at(b, a, n - 1);
        &&& sound_upto(b, a, n - 1)
        &&& 0 <= t < a
        &&& sound_upto(b, t, fan(b, t))
    }
}

/// The largest value that a key ending at a node, or beyond its first `n` transitions, gets from
/// there on.
pub open spec fn heaviest_upto(b: Seq<u8>, a: int, n: int) -> nat
    decreases a, n,
{
    if n <= 0 {
        final_output(b, a)
    } else {
        let t = target_at(b, a, n - 1);
        let rest = heaviest_upto(b, a, n - 1);
        if 0 <= t < a {
            let here = output_at(b, a, n - 1) + heaviest_upto(b, t, fan(b, t));
            if here > rest {
                here
            } else {
                rest
            }
        } else {
            rest
        }
    }
}

/// How many keys end at a node or beyond its first `n` transitions.
pub open spec fn keys_upto(b: Seq<u8>, a: int, n: int) -> nat
    decreases a, n,
{
    if n <= 0 {
        if layout(b, a).is_final {
            1
        } else {
            0
        }
    } else {
        let t = target_at(b, a, n - 1);
        keys_upto(b, a, n - 1) + if 0 <= t < a {
            keys_upto(b, t, fan(b, t))
        } else {
            0
        }
    }
}

/// Whether a node and all that it leads to are sound.
#[verifier::opaque]
pub open spec fn sound_at(b: Seq<u8>, a: int) -> bool {
    sound_upto(b, a, fan(b, a))
}

/// The largest value that a key gets from a node on.
#[verifier::opaque]
pub open spec fn heaviest(b: Seq<u8>, a: int) -> nat {
    heaviest_upto(b, a, fan(b, a))
}

/// How many keys end at a node or beyond it.
#[verifier::opaque]
pub open spec fn keys_from(b: Seq<u8>, a: int) -> nat {
    keys_upto(b, a, fan(b, a))
}

/// Whether the nodes of an index can be walked: from the root on every node is sound, the value of
/// every key has 64 bits, and there are not too many keys.
pub open spec fn nodes_sound(b: Seq<u8>) -> bool {
    &&& b.len() >= 36
    &&& sound_at(b, root_of(b) as int)
    &&& heaviest(b, root_of(b) as int) <= u64::MAX
    &&& keys_from(b, root_of(b) as int) <= MOST_KEYS
}

proof fn lemma_sound_is_plain(b: Seq<u8>, a: int, n: int)
    requires
        sound_upto(b, a, n),
    ensures
        a == 0 || node_plain(b, a),
    decreases n,
{
    if n > 0 {
        lemma_sound_is_plain(b, a, n - 1);
    }
}

proof fn lemma_sound_targets(b: Seq<u8>, a: int, n: int, i: int)
    requires
        sound_upto(b, a, n),
        0 <= i < n,
    ensures
        0 <= target_at(b, a, i) < a,
        sound_at(b, target_at(b, a, i)),
    decreases n,
{
    reveal(sound_at);
    reveal(heaviest);
    reveal(keys_from);
    if i < n - 1 {
        lemma_sound_targets(b, a, n - 1, i);
    }
}

proof fn lemma_sound_from_targets(b: Seq<u8>, a: int, n: int)
    requires
        node_plain(b, a),
        n <= fan(b, a),
        forall|i: int| 0 <= i < n ==> sound_at(b, #[trigger] target_at(b, a, i)),
    ensures
        sound_upto(b, a, n),
    decreases n,
{
    reveal(sound_at);
    reveal(heaviest);
    reveal(keys_from);
    if n > 0 {
        lemma_sound_from_targets(b, a, n - 1);
        assert(sound_at(b, target_at(b, a, n - 1)));
    }
}

proof fn lemma_node_outweighs(b: Seq<u8>, a: int, n: int, i: int)
    requires
        0 <= i < n,
        0 <= target_at(b, a, i) < a,
    ensures
        heaviest_upto(b, a, n) >= output_at(b, a, i) + heaviest(b, target_at(b, a, i)),
        keys_upto(b, a, n) >= keys_from(b, target_at(b, a, i)),
    decreases n,
{
    reveal(sound_at);
    reveal(heaviest);
    reveal(keys_from);
    if i < n - 1 {
        lemma_node_outweighs(b, a, n - 1, i);
    }
}

proof fn lemma_upto_grows(b: Seq<u8>, a: int, m: int, n: int)
    requires
        m <= n,
    ensures
        heaviest_upto(b, a, m) <= heaviest_upto(b, a, n),
        keys_upto(b, a, m) <= keys_upto(b, a, n),
    decreases n - m,
{
    if m < n {
        lemma_upto_grows(b, a, m, n - 1);
    }
}

// ───────────────────────────── reading a node ─────────────────────────────

/// A node that lies whole inside the bytes, as it was read.
struct Node {
    count: usize,
    is_final: bool,
    next: bool,
    top: usize,
    table: usize,
    inputs: usize,
    tsize: usize,
    osize: usize,
    below_inputs: usize,
    below_targets: usize,
    end: usize,
}

impl Node {
    spec fn laid_out(&self, b: Seq<u8>, a: int) -> bool {
        let l = layout(b, a);
        &&& self.count == l.count
        &&& self.is_final == l.is_final
        &&& self.next == l.next
        &&& self.top == l.top
        &&& self.table == l.table
        &&& self.inputs == l.inputs
        &&& self.tsize == l.tsize
        &&& self.osize == l.osize
        &&& self.below_inputs == l.below_inputs()
        &&& self.below_targets == l.below_targets()
        &&& self.end == l.end()
        &&& node_framed(b, a)
        &&& l.count <= 256
        &&& l.tsize <= 15
        &&& l.osize <= 15
    }

    /// Whether its targets and outputs have sizes that can be read.
    spec fn steps(&self) -> bool {
        self.next || (0 < self.tsize <= 8 && self.osize <= 8)
    }
}

fn read_node(b: &[u8], a: usize) -> (r: Option<Node>)
    requires
        b@.len() >= 36,
        0 < a < b@.len(),
    ensures
        (match r {
            Some(node) => node.laid_out(b@, a as int) && node_whole(b@, a as int) && (node.count > 0
                ==> node.steps()),
            None => !node_whole(b@, a as int),
        }),
{
    match read_frame(b, a) {
        Some(node) => {
            if node.tsize > 8 || node.osize > 8 || (node.count > 0 && !node.next && node.tsize == 0) {
                None
            } else {
                Some(node)
            }
        },
        None => None,
    }
}

fn read_frame(b: &[u8], a: usize) -> (r: Option<Node>)
    requires
        b@.len() >= 36,
        0 < a < b@.len(),
    ensures
        (match r {
            Some(node) => node.laid_out(b@, a as int),
            None => !node_framed(b@, a as int),
        }),
{
    let len: usize = b.len();
    let state: u8 = b[a];
    let low: u8 = state % 64;
    let own: usize = if low == 0 {
        1
    } else {
        0
    };
    if state >= 192 {
        let top: usize = a - own;
        return Some(
            Node {
                count: 1,
                is_final: false,
                next: true,
                top,
                table: 0,
                inputs: 0,
                tsize: 0,
                osize: 0,
                below_inputs: top,
                below_targets: top,
                end: top,
            },
        );
    }
    if a < own + 1 {
        return None;
    }
    let top: usize = a - own - 1;
    let tsize: usize = (b[top] / 16) as usize;
    let osize: usize = (b[top] % 16) as usize;
    let format: u64 = u64_at(b, 0);
    let many = state < 128;
    let count: usize = if !many {
        1
    } else if low != 0 {
        low as usize
    } else if b[a - 1] == 1 {
        256
    } else {
        b[a - 1] as usize
    };
    let table: usize = if many && format >= 2 && count > 32 {
        256
    } else {
        0
    };
    let inputs: usize = if many {
        count
    } else {
        0
    };
    let is_final = many && state >= 64;
    assert(layout(b@, a as int) == (Layout {
        count: count as int,
        is_final,
        next: false,
        top: top as int,
        table: table as int,
        inputs: inputs as int,
        tsize: tsize as int,
        osize: osize as int,
    }));
    assert(count * tsize <= 256 * 15) by (nonlinear_arith)
        requires
            count <= 256,
            tsize <= 15,
    ;
    assert(count * osize <= 256 * 15) by (nonlinear_arith)
        requires
            count <= 256,
            osize <= 15,
    ;
    let targets: usize = count * tsize;
    let outputs: usize = count * osize;
    let last: usize = if is_final {
        osize
    } else {
        0
    };
    if top < table + inputs + targets + outputs + last {
        return None;
    }
    let below_inputs: usize = top - table - inputs;
    let below_targets: usize = below_inputs - targets;
    Some(
        Node {
            count,
            is_final,
            next: false,
            top,
            table,
            inputs,
            tsize,
            osize,
            below_inputs,
            below_targets,
            end: below_targets - outputs - last,
        },
    )
}

impl Node {
    fn input(&self, b: &[u8], Ghost(a): Ghost<int>, i: usize) -> (r: u8)
        requires
            self.laid_out(b@, a),
            i < self.inputs,
        ensures
            r == input_at(b@, a, i as int),
    {
        proof {
            self.lemma_inside(b@, a);
        }
        b[self.top - self.table - i - 1]
    }

    proof fn lemma_inside(&self, b: Seq<u8>, a: int)
        requires
            self.laid_out(b, a),
        ensures
            self.top <= a,
            self.end <= self.below_targets <= self.below_inputs <= self.top - self.table
                - self.inputs,
            self.below_targets == self.below_inputs - self.count * self.tsize,
            self.end <= self.below_targets - self.count * self.osize,
            self.next ==> self.end == self.top,
            !self.next ==> self.top < a,
    {
        assert(self.count * self.tsize >= 0) by (nonlinear_arith)
            requires
                self.count >= 0,
                self.tsize >= 0,
        ;
        assert(self.count * self.osize >= 0) by (nonlinear_arith)
            requires
                self.count >= 0,
                self.osize >= 0,
        ;
        if self.next {
            assert(self.tsize == 0 && self.osize == 0 && self.count == 1);
            assert(self.count * self.tsize == 0) by (nonlinear_arith)
                requires
                    self.tsize == 0,
            ;
            assert(self.count * self.osize == 0) by (nonlinear_arith)
                requires
                    self.osize == 0,
            ;
        }
    }

    /// The target of a transition, where it is an address at all.
    fn target(&self, b: &[u8], Ghost(a): Ghost<int>, i: usize) -> (r: Option<usize>)
        requires
            self.laid_out(b@, a),
            self.steps(),
            i < self.count,
        ensures
            (match r {
                Some(t) => t == target_at(b@, a, i as int) && t < a,
                None => target_at(b@, a, i as int) < 0,
            }),
    {
        proof {
            self.lemma_inside(b@, a);
        }
        if self.next {
            return if self.end == 0 {
                None
            } else {
                Some(self.end - 1)
            };
        }
        proof {
            lemma_field_inside(i as int, self.count as int, self.tsize as int);
        }
        let back: usize = (i + 1) * self.tsize;
        let delta: u64 = read_packed(b, self.below_inputs - back, self.tsize);
        if delta == 0 {
            Some(0)
        } else if delta > self.end as u64 {
            None
        } else {
            Some(self.end - delta as usize)
        }
    }

    fn output(&self, b: &[u8], Ghost(a): Ghost<int>, i: usize) -> (r: u64)
        requires
            self.laid_out(b@, a),
            self.steps(),
            i < self.count,
        ensures
            r == output_at(b@, a, i as int),
    {
        proof {
            self.lemma_inside(b@, a);
            lemma_field_inside(i as int, self.count as int, self.osize as int);
        }
        let back: usize = (i + 1) * self.osize;
        read_packed(b, self.below_targets - back, self.osize)
    }

    fn last_output(&self, b: &[u8], Ghost(a): Ghost<int>) -> (r: u64)
        requires
            self.laid_out(b@, a),
            self.is_final ==> self.osize <= 8,
        ensures
            r == final_output(b@, a),
    {
        proof {
            self.lemma_inside(b@, a);
        }
        if self.is_final {
            read_packed(b, self.end, self.osize)
        } else {
            0
        }
    }

    fn ascends(&self, b: &[u8], Ghost(a): Ghost<int>) -> (r: bool)
        requires
            self.laid_out(b@, a),
        ensures
            r == inputs_ascend(b@, a),
    {
        let mut i: usize = 0;
        while i + 1 < self.inputs
            invariant
                self.laid_out(b@, a),
                i == 0 || i < self.inputs,
                self.inputs <= 256,
                forall|k: int|
                    0 <= k < i ==> #[trigger] input_at(b@, a, k) < input_at(b@, a, k + 1),
            decreases self.inputs - i,
        {
            if self.input(b, Ghost(a), i) >= self.input(b, Ghost(a), i + 1) {
                assert(!(input_at(b@, a, i as int) < input_at(b@, a, i + 1)));
                return false;
            }
            i += 1;
        }
        true
    }

    fn agrees(&self, b: &[u8], Ghost(a): Ghost<int>) -> (r: bool)
        requires
            self.laid_out(b@, a),
        ensures
            r == table_agrees(b@, a),
    {
        if self.table == 0 {
            return true;
        }
        proof {
            self.lemma_inside(b@, a);
        }
        let base: usize = self.top - self.table;
        let mut i: usize = 0;
        while i < self.count
            invariant
                self.laid_out(b@, a),
                self.inputs == self.count,
                self.table == 256,
                base == self.top - self.table,
                self.top < b@.len(),
                i <= self.count,
                forall|k: int|
                    0 <= k < i ==> table_at(b@, a, (#[trigger] input_at(b@, a, k)) as int) == k,
            decreases self.count - i,
        {
            let v: u8 = self.input(b, Ghost(a), i);
            if b[base + v as usize] as usize != i {
                assert(table_at(b@, a, input_at(b@, a, i as int) as int) != i);
                return false;
            }
            i += 1;
        }
        let mut v: usize = 0;
        while v < 256
            invariant
                self.laid_out(b@, a),
                self.inputs == self.count,
                self.table == 256,
                base == self.top - self.table,
                self.top < b@.len(),
                v <= 256,
                forall|k: int|
                    0 <= k < self.count ==> table_at(b@, a, (#[trigger] input_at(b@, a, k)) as int)
                        == k,
                forall|k: int|
                    0 <= k < v && (#[trigger] table_at(b@, a, k)) < self.count ==> input_at(
                        b@,
                        a,
                        table_at(b@, a, k) as int,
                    ) == k,
            decreases 256 - v,
        {
            let i: usize = b[base + v] as usize;
            assert(table_at(b@, a, v as int) == i);
            if i < self.count && self.input(b, Ghost(a), i) as usize != v {
                assert(input_at(b@, a, table_at(b@, a, v as int) as int) != v);
                return false;
            }
            v += 1;
        }
        true
    }
}

proof fn lemma_field_inside(i: int, count: int, size: int)
    requires
        0 <= i < count <= 256,
        0 <= size <= 8,
    ensures
        size <= (i + 1) * size <= count * size,
        (i + 1) * size <= 2048,
{
    assert(size <= (i + 1) * size) by (nonlinear_arith)
        requires
            i >= 0,
            size >= 0,
    ;
    assert((i + 1) * size <= count * size) by (nonlinear_arith)
        requires
            i + 1 <= count,
            size >= 0,
    ;
    assert(0 <= (i + 1) * size <= 2048) by (nonlinear_arith)
        requires
            0 <= i + 1 <= 256,
            0 <= size <= 8,
    ;
}

// ───────────────────────────── the walk ─────────────────────────────

/// Whether the marks are closed above `a`: every marked node there is sound by itself, and marks
/// what it leads to.
spec fn closed_above(b: Seq<u8>, marked: Seq<bool>, a: int) -> bool {
    forall|x: int|
        a < x < marked.len() && #[trigger] marked[x] ==> node_plain(b, x) && marks_targets(
            b,
            marked,
            x,
            fan(b, x),
        )
}

spec fn marks_targets(b: Seq<u8>, marked: Seq<bool>, x: int, n: int) -> bool {
    forall|i: int| 0 <= i < n ==> marked[#[trigger] target_at(b, x, i)]
}

/// Whether every marked node is one that the root answers for.
spec fn answered_by(b: Seq<u8>, marked: Seq<bool>, root: int) -> bool {
    forall|x: int|
        0 <= x < marked.len() && #[trigger] marked[x] ==> (sound_at(b, root) ==> sound_at(b, x))
            && heaviest(b, x) <= heaviest(b, root) && keys_from(b, x) <= keys_from(b, root)
}

/// Marks what the node at `a` leads to; nothing where the node is not sound by itself.
fn mark_targets(b: &[u8], marked: &mut Vec<bool>, a: usize, root: usize) -> (r: bool)
    requires
        b@.len() >= 36,
        0 < a <= root < b@.len(),
        old(marked)@.len() == root + 1,
        old(marked)@[a as int],
        answered_by(b@, old(marked)@, root as int),
        closed_above(b@, old(marked)@, a as int),
    ensures
        final(marked)@.len() == root + 1,
        r ==> final(marked)@[root as int] == old(marked)@[root as int],
        r == node_plain(b@, a as int),
        r ==> answered_by(b@, final(marked)@, root as int),
        r ==> closed_above(b@, final(marked)@, a - 1),
{
    let node = match read_node(b, a) {
        Some(node) => node,
        None => {
            return false;
        },
    };
    if !node.ascends(b, Ghost(a as int)) || !node.agrees(b, Ghost(a as int)) {
        return false;
    }
    let ghost bs = b@;
    let ghost start = marked@;
    assert(start == old(marked)@);
    let mut i: usize = 0;
    while i < node.count
        invariant
            bs == b@,
            bs.len() >= 36,
            0 < a <= root < bs.len(),
            node.laid_out(bs, a as int),
            node_whole(bs, a as int),
            node.count > 0 ==> node.steps(),
            i <= node.count,
            marked@.len() == root + 1,
            marked@[a as int],
            start.len() == root + 1,
            marked@[root as int] == start[root as int],
            answered_by(bs, marked@, root as int),
            closed_above(bs, marked@, a as int),
            marks_targets(bs, marked@, a as int, i as int),
            forall|k: int| 0 <= k < i ==> 0 <= #[trigger] target_at(bs, a as int, k) < a,
        decreases node.count - i,
    {
        match node.target(b, Ghost(a as int), i) {
            Some(t) => {
                let ghost was = marked@;
                marked.set(t, true);
                proof {
                    let ai = a as int;
                    let ti = t as int;
                    lemma_node_outweighs(bs, ai, fan(bs, ai), i as int);
                    reveal(sound_at);
                    reveal(heaviest);
                    reveal(keys_from);
                    if sound_at(bs, ai) {
                        lemma_sound_targets(bs, ai, fan(bs, ai), i as int);
                    }
                    assert(was[ai]);
                    assert forall|x: int|
                        0 <= x < marked@.len() && #[trigger] marked@[x] implies (sound_at(
                        bs,
                        root as int,
                    ) ==> sound_at(bs, x)) && heaviest(bs, x) <= heaviest(bs, root as int)
                        && keys_from(bs, x) <= keys_from(bs, root as int) by {
                        if x != ti {
                            assert(was[x]);
                        }
                    }
                    lemma_marking_keeps(bs, was, marked@, ti, ai);
                    assert forall|k: int| 0 <= k < i + 1 implies marked@[#[trigger] target_at(
                        bs,
                        ai,
                        k,
                    )] by {
                        if k < i {
                            assert(was[target_at(bs, ai, k)]);
                        }
                    }
                }
            },
            None => {
                assert(!(0 <= target_at(bs, a as int, i as int)));
                return false;
            },
        }
        i += 1;
    }
    proof {
        assert(node_plain(bs, a as int));
        assert forall|x: int|
            a - 1 < x < marked@.len() && #[trigger] marked@[x] implies node_plain(bs, x)
            && marks_targets(bs, marked@, x, fan(bs, x)) by {
            if x == a {
            } else {
                assert(a < x);
            }
        }
    }
    true
}

proof fn lemma_marking_keeps(b: Seq<u8>, was: Seq<bool>, now: Seq<bool>, t: int, a: int)
    requires
        0 <= t < a,
        t < was.len(),
        now == was.update(t, true),
        closed_above(b, was, a),
    ensures
        closed_above(b, now, a),
{
    assert forall|x: int| a < x < now.len() && #[trigger] now[x] implies node_plain(b, x)
        && marks_targets(b, now, x, fan(b, x)) by {
        assert(was[x]);
        assert forall|i: int| 0 <= i < fan(b, x) implies now[#[trigger] target_at(b, x, i)] by {
            assert(was[target_at(b, x, i)]);
        }
    }
}

/// Marks the nodes that a walk from the root meets; nothing where one is not sound by itself.
fn mark_nodes(b: &[u8], root: usize) -> (r: Option<Vec<bool>>)
    requires
        b@.len() >= 36,
        root < b@.len(),
    ensures
        (match r {
            Some(marked) => {
                &&& marked@.len() == root + 1
                &&& marked@[root as int]
                &&& answered_by(b@, marked@, root as int)
                &&& closed_above(b@, marked@, 0)
            },
            None => !sound_at(b@, root as int),
        }),
{
    let mut marked: Vec<bool> = Vec::new();
    let mut k: usize = 0;
    while k < root
        invariant
            k <= root,
            marked@.len() == k,
            forall|x: int| 0 <= x < k ==> !#[trigger] marked@[x],
        decreases root - k,
    {
        marked.push(false);
        k += 1;
    }
    marked.push(true);
    let mut a: usize = root;
    while a > 0
        invariant
            b@.len() >= 36,
            a <= root < b@.len(),
            marked@.len() == root + 1,
            marked@[root as int],
            answered_by(b@, marked@, root as int),
            closed_above(b@, marked@, a as int),
        decreases a,
    {
        if marked[a] {
            let ok = mark_targets(b, &mut marked, a, root);
            if !ok {
                proof {
                    if sound_at(b@, root as int) {
                        assert(sound_at(b@, a as int));
                        reveal(sound_at);
                        lemma_sound_is_plain(b@, a as int, fan(b@, a as int));
                    }
                }
                return None;
            }
        } else {
            assert forall|x: int|
                a - 1 < x < marked@.len() && #[trigger] marked@[x] implies node_plain(b@, x)
                && marks_targets(b@, marked@, x, fan(b@, x)) by {
                assert(a < x);
            }
        }
        a -= 1;
    }
    Some(marked)
}

/// Whether the marked nodes below `a` are weighed: sound, with the largest value and the number of
/// the keys from each.
spec fn weighed_below(
    b: Seq<u8>,
    marked: Seq<bool>,
    weights: Seq<u64>,
    keys: Seq<u64>,
    a: int,
) -> bool {
    &&& weights.len() == a
    &&& keys.len() == a
    &&& forall|x: int|
        0 <= x < a && #[trigger] marked[x] ==> sound_at(b, x) && weights[x] == heaviest(b, x)
            && keys[x] == keys_from(b, x)
}

/// The largest value and the number of the keys from a marked node on, where neither is too large.
fn weigh_node(
    b: &[u8],
    marked: &Vec<bool>,
    weights: &Vec<u64>,
    keys: &Vec<u64>,
    a: usize,
    root: usize,
) -> (r: Option<(u64, u64)>)
    requires
        b@.len() >= 36,
        0 < a <= root < b@.len(),
        marked@.len() == root + 1,
        marked@[a as int],
        answered_by(b@, marked@, root as int),
        closed_above(b@, marked@, 0),
        weighed_below(b@, marked@, weights@, keys@, a as int),
    ensures
        (match r {
            Some(w) => sound_at(b@, a as int) && w.0 == heaviest(b@, a as int) && w.1 == keys_from(
                b@,
                a as int,
            ) && w.1 <= MOST_KEYS,
            None => heaviest(b@, root as int) > u64::MAX || keys_from(b@, root as int) > MOST_KEYS,
        }),
{
    let ghost bs = b@;
    let ghost ai = a as int;
    assert(node_plain(bs, ai) && marks_targets(bs, marked@, ai, fan(bs, ai)));
    let node = match read_node(b, a) {
        Some(node) => node,
        None => {
            return None;
        },
    };
    let mut weight: u64 = node.last_output(b, Ghost(ai));
    let mut count: u64 = if node.is_final {
        1
    } else {
        0
    };
    let mut i: usize = 0;
    while i < node.count
        invariant
            bs == b@,
            ai == a,
            0 < a <= root < bs.len(),
            node.laid_out(bs, ai),
            node.count > 0 ==> node.steps(),
            i <= node.count,
            marked@.len() == root + 1,
            marked@[ai],
            answered_by(bs, marked@, root as int),
            node_plain(bs, ai),
            marks_targets(bs, marked@, ai, fan(bs, ai)),
            weighed_below(bs, marked@, weights@, keys@, ai),
            weight == heaviest_upto(bs, ai, i as int),
            count == keys_upto(bs, ai, i as int),
            count <= MOST_KEYS,
        decreases node.count - i,
    {
        proof {
            reveal(sound_at);
            reveal(heaviest);
            reveal(keys_from);
            lemma_node_outweighs(bs, ai, fan(bs, ai), i as int);
            lemma_upto_grows(bs, ai, i + 1, fan(bs, ai));
            assert(marked@[target_at(bs, ai, i as int)]);
        }
        match node.target(b, Ghost(ai), i) {
            Some(t) => {
                let out: u64 = node.output(b, Ghost(ai), i);
                let below: u64 = weights[t];
                if out > u64::MAX - below {
                    return None;
                }
                let here: u64 = out + below;
                if here > weight {
                    weight = here;
                }
                if keys[t] > MOST_KEYS as u64 - count {
                    return None;
                }
                count = count + keys[t];
            },
            None => {
                assert(false);
            },
        }
        i += 1;
    }
    proof {
        assert forall|k: int| 0 <= k < fan(bs, ai) implies sound_at(bs, #[trigger] target_at(
            bs,
            ai,
            k,
        )) by {
            assert(marked@[target_at(bs, ai, k)]);
        }
        lemma_sound_from_targets(bs, ai, fan(bs, ai));
        reveal(sound_at);
        reveal(heaviest);
        reveal(keys_from);
    }
    Some((weight, count))
}

/// Weighs the next node, where it is marked.
fn weigh_next(
    b: &[u8],
    marked: &Vec<bool>,
    weights: &mut Vec<u64>,
    keys: &mut Vec<u64>,
    a: usize,
    root: usize,
) -> (r: bool)
    requires
        b@.len() >= 36,
        0 < a <= root < b@.len(),
        marked@.len() == root + 1,
        answered_by(b@, marked@, root as int),
        closed_above(b@, marked@, 0),
        weighed_below(b@, marked@, old(weights)@, old(keys)@, a as int),
    ensures
        r ==> weighed_below(b@, marked@, final(weights)@, final(keys)@, a + 1),
        r && marked@[a as int] ==> final(keys)@[a as int] <= MOST_KEYS,
        !r ==> heaviest(b@, root as int) > u64::MAX || keys_from(b@, root as int) > MOST_KEYS,
{
    let ghost w = weights@;
    let ghost n = keys@;
    let (weight, count): (u64, u64) = if marked[a] {
        match weigh_node(b, marked, weights, keys, a, root) {
            Some(both) => both,
            None => {
                return false;
            },
        }
    } else {
        (0, 0)
    };
    weights.push(weight);
    keys.push(count);
    proof {
        assert forall|x: int| 0 <= x < a + 1 && #[trigger] marked@[x] implies sound_at(b@, x)
            && weights@[x] == heaviest(b@, x) && keys@[x] == keys_from(b@, x) by {
            if x < a {
                assert(weights@[x] == w[x] && keys@[x] == n[x]);
            }
        }
    }
    true
}

/// The node without bytes ends one key, and adds nothing to its value.
proof fn lemma_empty_node(b: Seq<u8>)
    ensures
        sound_at(b, 0),
        heaviest(b, 0) == 0,
        keys_from(b, 0) == 1,
{
    reveal(sound_at);
    reveal(heaviest);
    reveal(keys_from);
    assert(fan(b, 0) == 0);
    assert(layout(b, 0).is_final);
    assert(final_output(b, 0) == packed(b, layout(b, 0).end(), 0));
}

/// Nothing is weighed but the node without bytes.
fn begin_weighing(b: &[u8], marked: &Vec<bool>) -> (r: (Vec<u64>, Vec<u64>))
    ensures
        weighed_below(b@, marked@, r.0@, r.1@, 1),
        r.1@[0] == 1,
{
    let mut weights: Vec<u64> = Vec::new();
    let mut keys: Vec<u64> = Vec::new();
    weights.push(0);
    keys.push(1);
    proof {
        lemma_empty_node(b@);
        assert forall|x: int| 0 <= x < 1 && #[trigger] marked@[x] implies sound_at(b@, x)
            && weights@[x] == heaviest(b@, x) && keys@[x] == keys_from(b@, x) by {
            assert(x == 0);
        }
    }
    (weights, keys)
}

/// Whether the keys that the marked nodes list are not too many, and none has too large a value.
fn weigh_nodes(b: &[u8], marked: &Vec<bool>, root: usize) -> (r: bool)
    requires
        b@.len() >= 36,
        root < b@.len(),
        marked@.len() == root + 1,
        marked@[root as int],
        answered_by(b@, marked@, root as int),
        closed_above(b@, marked@, 0),
    ensures
        r ==> sound_at(b@, root as int),
        r == (heaviest(b@, root as int) <= u64::MAX && keys_from(b@, root as int) <= MOST_KEYS),
{
    let len: usize = b.len();
    let (mut weights, mut keys) = begin_weighing(b, marked);
    let mut a: usize = 1;
    while a <= root
        invariant
            len == b@.len(),
            b@.len() >= 36,
            1 <= a <= root + 1,
            root < b@.len(),
            marked@.len() == root + 1,
            marked@[root as int],
            answered_by(b@, marked@, root as int),
            closed_above(b@, marked@, 0),
            weighed_below(b@, marked@, weights@, keys@, a as int),
            marked@[a - 1] ==> keys@[a - 1] <= MOST_KEYS,
        decreases root + 1 - a,
    {
        if !weigh_next(b, marked, &mut weights, &mut keys, a, root) {
            return false;
        }
        a += 1;
    }
    assert(marked@[root as int]);
    true
}

/// Whether the nodes of an index can be walked.
pub fn check_nodes(b: &[u8]) -> (r: bool)
    ensures
        r == nodes_sound(b@),
{
    let len: usize = b.len();
    if len < 36 {
        return false;
    }
    let format: u64 = u64_at(b, 0);
    let field: usize = if format <= 2 {
        len - 8
    } else {
        len - 12
    };
    let address: u64 = u64_at(b, field);
    if address >= len as u64 {
        proof {
            if nodes_sound(b@) {
                reveal(sound_at);
                lemma_sound_is_plain(b@, address as int, fan(b@, address as int));
            }
        }
        return false;
    }
    let root: usize = address as usize;
    let marked = match mark_nodes(b, root) {
        Some(marked) => marked,
        None => {
            return false;
        },
    };
    weigh_nodes(b, &marked, root)
}

// ───────────────────────────── the way of one key ─────────────────────────────

/// The last of the first `n` transitions that a node lists under an input.
pub open spec fn last_input(b: Seq<u8>, a: int, v: u8, n: int) -> Option<int>
    decreases n,
{
    if n <= 0 {
        None
    } else if input_at(b, a, n - 1) == v {
        Some(n - 1)
    } else {
        last_input(b, a, v, n - 1)
    }
}

/// The transition by which a lookup may leave a node on an input: the one that the table or the list
/// of inputs gives, and the only one of a node that lists none.
pub open spec fn way_out(b: Seq<u8>, a: int, v: u8) -> Option<int> {
    let l = layout(b, a);
    if l.inputs == 0 {
        if l.count > 0 {
            Some(0)
        } else {
            None
        }
    } else if l.table > 0 {
        if table_at(b, a, v as int) < l.count {
            Some(table_at(b, a, v as int) as int)
        } else {
            None
        }
    } else {
        last_input(b, a, v, l.count)
    }
}

/// Whether a node can be looked at: it lies inside the bytes, and what it adds to a key that ends at
/// it can be read.
pub open spec fn can_enter(b: Seq<u8>, a: int) -> bool {
    a == 0 || (node_framed(b, a) && (layout(b, a).is_final ==> layout(b, a).osize <= 8))
}

/// Whether a node can be left by transition `i`.
pub open spec fn can_leave(b: Seq<u8>, a: int, i: int) -> bool {
    let l = layout(b, a);
    &&& l.next || (0 < l.tsize <= 8 && l.osize <= 8)
    &&& target_at(b, a, i) >= 0
}

/// Whether the way of a key can be walked from a node on, where its first `i` bytes led there and
/// gave it the value `sum`: every node on the way can be looked at and left, and the value keeps 64
/// bits.
pub open spec fn way_walks(b: Seq<u8>, key: Seq<u8>, a: int, i: int, sum: int) -> bool
    decreases key.len() - i,
{
    &&& can_enter(b, a)
    &&& if i >= key.len() {
        sum + final_output(b, a) <= u64::MAX
    } else {
        match way_out(b, a, key[i]) {
            None => true,
            Some(t) => {
                &&& can_leave(b, a, t)
                &&& sum + output_at(b, a, t) <= u64::MAX
                &&& way_walks(b, key, target_at(b, a, t), i + 1, sum + output_at(b, a, t))
            },
        }
    }
}

/// Whether the way of a key can be walked from the root on.
pub open spec fn key_walks(b: Seq<u8>, key: Seq<u8>) -> bool {
    b.len() >= 36 && way_walks(b, key, root_of(b) as int, 0, 0)
}

proof fn lemma_last_input(b: Seq<u8>, a: int, v: u8, n: int)
    requires
        n >= 0,
    ensures
        (match last_input(b, a, v, n) {
            Some(t) => 0 <= t < n,
            None => true,
        }),
    decreases n,
{
    if n > 0 {
        lemma_last_input(b, a, v, n - 1);
    }
}

proof fn lemma_sound_way(b: Seq<u8>, key: Seq<u8>, a: int, i: int, sum: int)
    requires
        b.len() >= 36,
        sound_at(b, a),
        0 <= a,
        0 <= sum,
        sum + heaviest(b, a) <= u64::MAX,
    ensures
        way_walks(b, key, a, i, sum),
    decreases key.len() - i,
{
    let n = fan(b, a);
    reveal(sound_at);
    reveal(heaviest);
    lemma_sound_is_plain(b, a, n);
    assert(n >= 0 && layout(b, a).count >= 0);
    lemma_upto_grows(b, a, 0, n);
    if i < key.len() {
        lemma_last_input(b, a, key[i], n);
        match way_out(b, a, key[i]) {
            None => {},
            Some(t) => {
                assert(0 <= t < n);
                lemma_sound_targets(b, a, n, t);
                lemma_node_outweighs(b, a, n, t);
                lemma_sound_way(
                    b,
                    key,
                    target_at(b, a, t),
                    i + 1,
                    sum + output_at(b, a, t),
                );
            },
        }
    }
}

/// Where all nodes are sound, the way of every key can be walked.
pub(crate) proof fn lemma_sound_keys_walk(b: Seq<u8>, key: Seq<u8>)
    requires
        nodes_sound(b),
    ensures
        key_walks(b, key),
{
    lemma_sound_way(b, key, root_of(b) as int, 0, 0);
}

impl Node {
    fn way(&self, b: &[u8], Ghost(a): Ghost<int>, v: u8) -> (r: Option<usize>)
        requires
            self.laid_out(b@, a),
        ensures
            (match r {
                Some(t) => way_out(b@, a, v) == Some(t as int) && t < self.count,
                None => way_out(b@, a, v) is None,
            }),
    {
        if self.inputs == 0 {
            return if self.count > 0 {
                Some(0)
            } else {
                None
            };
        }
        proof {
            self.lemma_inside(b@, a);
        }
        if self.table > 0 {
            let t: usize = b[self.top - self.table + v as usize] as usize;
            assert(table_at(b@, a, v as int) == t);
            return if t < self.count {
                Some(t)
            } else {
                None
            };
        }
        let mut n: usize = self.count;
        while n > 0
            invariant
                self.laid_out(b@, a),
                self.inputs == self.count,
                self.inputs > 0,
                self.table == 0,
                n <= self.count,
                last_input(b@, a, v, self.count as int) == last_input(b@, a, v, n as int),
            decreases n,
        {
            if self.input(b, Ghost(a), n - 1) == v {
                return Some(n - 1);
            }
            n -= 1;
        }
        None
    }
}

/// Whether the way of a key can be walked from the root on.
pub fn check_key(b: &[u8], key: &[u8]) -> (r: bool)
    ensures
        r == key_walks(b@, key@),
{
    let len: usize = b.len();
    if len < 36 {
        return false;
    }
    let format: u64 = u64_at(b, 0);
    let field: usize = if format <= 2 {
        len - 8
    } else {
        len - 12
    };
    let address: u64 = u64_at(b, field);
    if address >= len as u64 {
        return false;
    }
    let mut a: usize = address as usize;
    let mut sum: u64 = 0;
    let mut i: usize = 0;
    while a > 0
        invariant
            len == b@.len(),
            len >= 36,
            a < len,
            i <= key@.len(),
            key_walks(b@, key@) == way_walks(b@, key@, a as int, i as int, sum as int),
        decreases a,
    {
        let ghost ai = a as int;
        let node = match read_frame(b, a) {
            Some(node) => node,
            None => {
                return false;
            },
        };
        if node.is_final && node.osize > 8 {
            return false;
        }
        if i >= key.len() {
            return node.last_output(b, Ghost(ai)) <= u64::MAX - sum;
        }
        let t: usize = match node.way(b, Ghost(ai), key[i]) {
            Some(t) => t,
            None => {
                return true;
            },
        };
        if !node.next && (node.tsize == 0 || node.tsize > 8 || node.osize > 8) {
            return false;
        }
        let out: u64 = node.output(b, Ghost(ai), t);
        if out > u64::MAX - sum {
            return false;
        }
        match node.target(b, Ghost(ai), t) {
            Some(next) => {
                a = next;
            },
            None => {
                return false;
            },
        }
        sum = sum + out;
        i += 1;
    }
    proof {
        assert(fan(b@, 0) == 0);
        assert(layout(b@, 0).osize == 0);
        assert(final_output(b@, 0) == 0) by {
            assert(final_output(b@, 0) == packed(b@, layout(b@, 0).end(), 0));
        }
    }
    true
}

} // verus!
