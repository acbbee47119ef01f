use vstd::prelude::*;

verus! {

/// The state of a sequencer as plain values: the number of the block that is
/// written next, and the blocks that wait for their turn.
pub struct SequencerView {
    pub next: nat,
    pub waiting: Map<nat, Seq<u8>>,
}

/// Puts finished blocks back into the order in which their batches were
/// read: a block is released only after all blocks with lower numbers.
pub struct Sequencer {
    next: u64,
    waiting: Vec<(u64, Vec<u8>)>,
}

/// Some entry of `waiting` has the number `number`.
pub open spec fn listed(waiting: Seq<(u64, Vec<u8>)>, number: nat) -> bool {
    exists|i: int| 0 <= i < waiting.len() && (#[trigger] waiting[i]).0 == number
}

/// The block that waits under `number`.
pub open spec fn block_of(waiting: Seq<(u64, Vec<u8>)>, number: nat) -> Seq<u8> {
    let i = choose|i: int| 0 <= i < waiting.len() && (#[trigger] waiting[i]).0 == number;
    waiting[i].1@
}

/// The waiting blocks, each under its number.
pub open spec fn waiting_map(waiting: Seq<(u64, Vec<u8>)>) -> Map<nat, Seq<u8>> {
    Map::new(|number: nat| listed(waiting, number), |number: nat| block_of(waiting, number))
}

/// The blocks that `released` hands out are those numbered from `from` on,
/// one after the other.
pub open spec fn in_turn(released: Seq<Seq<u8>>, from: nat, pool: Map<nat, Seq<u8>>) -> bool {
    forall|j: int| 0 <= j < released.len() ==> #[trigger] takes_turn(released, from, pool, j)
}

/// The block that `released` hands out at position `j` is the one numbered
/// `from + j`.
pub open spec fn takes_turn(
    released: Seq<Seq<u8>>,
    from: nat,
    pool: Map<nat, Seq<u8>>,
    j: int,
) -> bool {
    pool.contains_key((from + j) as nat) && released[j] == pool[(from + j) as nat]
}

/// Whether a block with this number is taken in: its turn has not passed,
/// no block waits under its number, and a number follows it.
pub open spec fn accepted(v: SequencerView, number: nat) -> bool {
    v.next <= number < u64::MAX && !v.waiting.contains_key(number)
}

impl View for Sequencer {
    type V = SequencerView;

    closed spec fn view(&self) -> SequencerView {
        SequencerView { next: self.next as nat, waiting: waiting_map(self.waiting@) }
    }
}

impl Sequencer {
    #[verifier::type_invariant]
    spec fn ordered(self) -> bool {
        &&& forall|i: int|
            0 <= i < self.waiting@.len() ==> self.next < (#[trigger] self.waiting@[i]).0 < u64::MAX
        &&& forall|i: int, j: int|
            0 <= i < j < self.waiting@.len() ==> (#[trigger] self.waiting@[i]).0 != (
            #[trigger] self.waiting@[j]).0
    }

    /// A sequencer that waits for block 0.
    pub fn new() -> (s: Sequencer)
        ensures
            s@.next == 0,
            s@.waiting == Map::<nat, Seq<u8>>::empty(),
    {
        let s = Sequencer { next: 0, waiting: Vec::new() };
        assert(waiting_map(s.waiting@) =~= Map::<nat, Seq<u8>>::empty());
        s
    }

    /// The number of the block that is written next.
    pub fn next_number(&self) -> (n: u64)
        ensures
            n == self@.next,
    {
        self.next
    }

    /// The number of blocks that wait.
    pub fn waiting_count(&self) -> (n: usize)
        ensures
            n == self@.waiting.dom().len(),
            self@.waiting.dom().finite(),
    {
        proof {
            use_type_invariant(self);
            lemma_waiting_len(self.waiting@);
        }
        self.waiting.len()
    }

    /// Takes in the block of batch `number` and hands out, in order, every
    /// block whose turn has come: the blocks numbered from the next number
    /// on, up to the first number that no block has yet. A block whose turn
    /// has passed, or whose number a waiting block has, is dropped.
    pub fn push(self, number: u64, block: Vec<u8>) -> (done: (Sequencer, Vec<Vec<u8>>))
        ensures
            ({
                let before = self@;
                let after = done.0@;
                let released = crate::bytes::byte_rows(done.1@);
                let pool = if accepted(before, number as nat) {
                    before.waiting.insert(number as nat, block@)
                } else {
                    before.waiting
                };
                &&& after.next == before.next + released.len()
                &&& in_turn(released, before.next, pool)
                &&& !pool.contains_key(after.next)
                &&& forall|k: nat|
                    #![trigger after.waiting.contains_key(k)]
                    #![trigger pool.contains_key(k)]
                    after.waiting.contains_key(k) <==> pool.contains_key(k) && k >= after.next
                &&& forall|k: nat|
                    #![trigger after.waiting[k]]
                    after.waiting.contains_key(k) ==> after.waiting[k] == pool[k]
            }),
    {
        proof {
            use_type_invariant(&self);
        }
        let ghost before = self@;
        let mut next = self.next;
        let mut waiting = self.waiting;
        let mut released: Vec<Vec<u8>> = Vec::new();
        let ghost start = waiting@;
        if number == next && number < u64::MAX {
            proof {
                assert(!listed(start, number as nat));
            }
            released.push(block);
            next = next + 1;
        } else if number > next && number < u64::MAX && !holds(&waiting, number) {
            waiting.push((number, block));
            proof {
                lemma_waiting_push(start, number, block);
            }
        }
        let ghost pool = if accepted(before, number as nat) {
            before.waiting.insert(number as nat, block@)
        } else {
            before.waiting
        };
        proof {
            assert(in_turn(crate::bytes::byte_rows(released@), before.next, pool));
            assert forall|k: nat| #[trigger]
                waiting_map(waiting@).contains_key(k) <==> pool.contains_key(k) && k >= next by {
                if listed(waiting@, k) {
                    let i = choose|i: int| 0 <= i < waiting@.len() && (#[trigger] waiting@[i]).0 == k;
                    if i < start.len() {
                        assert(start[i].0 == k);
                    }
                }
                if pool.contains_key(k) && k >= next {
                    if listed(start, k) {
                        let i = choose|i: int| 0 <= i < start.len() && (#[trigger] start[i]).0 == k;
                        assert(waiting@[i].0 == k);
                    } else {
                        assert(waiting@[waiting@.len() - 1].0 == k);
                    }
                }
            }
        }
        loop
            invariant_except_break
                before.next <= next <= u64::MAX,
                next == before.next + released@.len(),
                in_turn(crate::bytes::byte_rows(released@), before.next, pool),
                forall|i: int| 0 <= i < waiting@.len() ==> next <= (#[trigger] waiting@[i]).0 < u64::MAX,
                forall|i: int, j: int|
                    0 <= i < j < waiting@.len() ==> (#[trigger] waiting@[i]).0 != (
                    #[trigger] waiting@[j]).0,
                forall|k: nat| #[trigger]
                    waiting_map(waiting@).contains_key(k) <==> pool.contains_key(k) && k >= next,
                forall|k: nat|
                    waiting_map(waiting@).contains_key(k) ==> #[trigger] waiting_map(waiting@)[k]
                        == pool[k],
            ensures
                before.next <= next <= u64::MAX,
                next == before.next + released@.len(),
                in_turn(crate::bytes::byte_rows(released@), before.next, pool),
                forall|i: int| 0 <= i < waiting@.len() ==> next < (#[trigger] waiting@[i]).0 < u64::MAX,
                forall|i: int, j: int|
                    0 <= i < j < waiting@.len() ==> (#[trigger] waiting@[i]).0 != (
                    #[trigger] waiting@[j]).0,
                forall|k: nat| #[trigger]
                    waiting_map(waiting@).contains_key(k) <==> pool.contains_key(k) && k >= next,
                forall|k: nat|
                    waiting_map(waiting@).contains_key(k) ==> #[trigger] waiting_map(waiting@)[k]
                        == pool[k],
                !pool.contains_key(next as nat),
            decreases waiting@.len(),
        {
            let at = position(&waiting, next);
            if at >= waiting.len() {
                proof {
                    assert(!listed(waiting@, next as nat));
                    assert(!waiting_map(waiting@).contains_key(next as nat));
                }
                break ;
            }
            let ghost old_waiting = waiting@;
            let ghost old_released = crate::bytes::byte_rows(released@);
            proof {
                assert(old_waiting[at as int].0 == next);
                assert(listed(old_waiting, next as nat));
                assert(waiting_map(old_waiting).contains_key(next as nat));
                lemma_block_of(old_waiting, at as int);
                assert(waiting_map(old_waiting)[next as nat] == old_waiting[at as int].1@);
                assert(pool.contains_key(next as nat));
                assert(pool[next as nat] == old_waiting[at as int].1@);
            }
            let entry = waiting.swap_remove(at);
            proof {
                assert(entry == old_waiting[at as int]);
                lemma_waiting_swap_remove(old_waiting, at as int, waiting@);
                assert forall|k: nat| #[trigger]
                    waiting_map(waiting@).contains_key(k) <==> pool.contains_key(k) && k >= next
                        + 1 by {
                    assert(waiting_map(old_waiting).contains_key(k) <==> pool.contains_key(k) && k
                        >= next);
                    assert(listed(waiting@, k) <==> listed(old_waiting, k) && k != next);
                }
                assert forall|k: nat| waiting_map(waiting@).contains_key(k) implies #[trigger]
                    waiting_map(waiting@)[k] == pool[k] by {
                    assert(listed(waiting@, k));
                    assert(waiting_map(old_waiting).contains_key(k));
                    assert(waiting_map(old_waiting)[k] == pool[k]);
                }
                assert forall|i: int| 0 <= i < waiting@.len() implies next + 1 <= (
                #[trigger] waiting@[i]).0 < u64::MAX by {
                    let j = choose|j: int| 0 <= j < old_waiting.len() && old_waiting[j] == waiting@[i];
                    assert(next <= old_waiting[j].0 < u64::MAX);
                    assert(listed(waiting@, waiting@[i].0 as nat));
                }
            }
            released.push(entry.1);
            proof {
                let now = crate::bytes::byte_rows(released@);
                assert(now =~= old_released.push(entry.1@));
                assert forall|j: int| 0 <= j < now.len() implies #[trigger] takes_turn(
                    now,
                    before.next,
                    pool,
                    j,
                ) by {
                    if j < old_released.len() {
                        assert(now[j] == old_released[j]);
                        assert(takes_turn(old_released, before.next, pool, j));
                    } else {
                        assert(now[j] == entry.1@);
                        assert((before.next + j) as nat == next as nat);
                    }
                }
            }
            next = next + 1;
        }
        let s = Sequencer { next, waiting };
        (s, released)
    }
}

/// Whether a block waits under `number`.
fn holds(waiting: &Vec<(u64, Vec<u8>)>, number: u64) -> (found: bool)
    ensures
        found == listed(waiting@, number as nat),
{
    position(waiting, number) < waiting.len()
}

/// The position of the first entry with the number `number`, or the length
/// of the list where there is none.
fn position(waiting: &Vec<(u64, Vec<u8>)>, number: u64) -> (at: usize)
    ensures
        at <= waiting.len(),
        at < waiting.len() ==> waiting@[at as int].0 == number,
        at == waiting.len() ==> !listed(waiting@, number as nat),
{
    let mut i: usize = 0;
    while i < waiting.len()
        invariant
            i <= waiting.len(),
            forall|j: int| 0 <= j < i ==> (#[trigger] waiting@[j]).0 != number,
        decreases waiting.len() - i,
    {
        if waiting[i].0 == number {
            return i;
        }
        i += 1;
    }
    i
}

/// Where numbers are distinct, the block under the number of an entry is
/// that entry's block.
proof fn lemma_block_of(waiting: Seq<(u64, Vec<u8>)>, at: int)
    requires
        0 <= at < waiting.len(),
        forall|i: int, j: int|
            0 <= i < j < waiting.len() ==> (#[trigger] waiting[i]).0 != (#[trigger] waiting[j]).0,
    ensures
        listed(waiting, waiting[at].0 as nat),
        block_of(waiting, waiting[at].0 as nat) == waiting[at].1@,
{
    let number = waiting[at].0 as nat;
    assert(waiting[at].0 == number);
    let i = choose|i: int| 0 <= i < waiting.len() && (#[trigger] waiting[i]).0 == number;
    if i < at {
        assert(waiting[i].0 != waiting[at].0);
    } else if at < i {
        assert(waiting[at].0 != waiting[i].0);
    }
}

/// A list with distinct numbers has as many waiting blocks as entries.
proof fn lemma_waiting_len(waiting: Seq<(u64, Vec<u8>)>)
    requires
        forall|i: int, j: int|
            0 <= i < j < waiting.len() ==> (#[trigger] waiting[i]).0 != (#[trigger] waiting[j]).0,
    ensures
        waiting_map(waiting).dom().finite(),
        waiting_map(waiting).dom().len() == waiting.len(),
    decreases waiting.len(),
{
    if waiting.len() == 0 {
        assert(waiting_map(waiting).dom() =~= Set::<nat>::empty());
    } else {
        let front = waiting.drop_last();
        let number = waiting.last().0 as nat;
        assert forall|i: int, j: int| 0 <= i < j < front.len() implies (#[trigger] front[i]).0 != (
        #[trigger] front[j]).0 by {
            assert(front[i] == waiting[i]);
            assert(front[j] == waiting[j]);
        }
        lemma_waiting_len(front);
        assert(!listed(front, number)) by {
            if listed(front, number) {
                let i = choose|i: int| 0 <= i < front.len() && (#[trigger] front[i]).0 == number;
                assert(waiting[i].0 != waiting[waiting.len() - 1].0);
            }
        }
        assert forall|k: nat| listed(waiting, k) <==> (listed(front, k) || k == number) by {
            if listed(waiting, k) {
                let i = choose|i: int| 0 <= i < waiting.len() && (#[trigger] waiting[i]).0 == k;
                if i < front.len() {
                    assert(front[i].0 == k);
                }
            }
            if listed(front, k) {
                let i = choose|i: int| 0 <= i < front.len() && (#[trigger] front[i]).0 == k;
                assert(waiting[i].0 == k);
            }
            if k == number {
                assert(waiting[waiting.len() - 1].0 == k);
            }
        }
        assert(waiting_map(waiting).dom() =~= waiting_map(front).dom().insert(number));
    }
}

/// Adding an entry under a number that no entry has adds its block to the
/// waiting blocks and changes no other.
proof fn lemma_waiting_push(waiting: Seq<(u64, Vec<u8>)>, number: u64, block: Vec<u8>)
    requires
        !listed(waiting, number as nat),
        forall|i: int, j: int|
            0 <= i < j < waiting.len() ==> (#[trigger] waiting[i]).0 != (#[trigger] waiting[j]).0,
    ensures
        waiting_map(waiting.push((number, block))) == waiting_map(waiting).insert(
            number as nat,
            block@,
        ),
        forall|i: int, j: int|
            0 <= i < j < waiting.len() + 1 ==> (#[trigger] waiting.push((number, block))[i]).0 != (
            #[trigger] waiting.push((number, block))[j]).0,
{
    let more = waiting.push((number, block));
    assert forall|i: int, j: int| 0 <= i < j < more.len() implies (#[trigger] more[i]).0 != (
    #[trigger] more[j]).0 by {
        if j < waiting.len() {
            assert(more[i] == waiting[i]);
            assert(more[j] == waiting[j]);
        } else {
            assert(more[i] == waiting[i]);
            assert(waiting[i].0 != number);
        }
    }
    assert forall|k: nat| listed(more, k) <==> (listed(waiting, k) || k == number) by {
        if listed(more, k) {
            let i = choose|i: int| 0 <= i < more.len() && (#[trigger] more[i]).0 == k;
            if i < waiting.len() {
                assert(waiting[i].0 == k);
            }
        }
        if listed(waiting, k) {
            let i = choose|i: int| 0 <= i < waiting.len() && (#[trigger] waiting[i]).0 == k;
            assert(more[i].0 == k);
        }
        if k == number {
            assert(more[more.len() - 1].0 == k);
        }
    }
    assert forall|k: nat| listed(more, k) implies block_of(more, k) == waiting_map(waiting).insert(
        number as nat,
        block@,
    )[k] by {
        let i = choose|i: int| 0 <= i < more.len() && (#[trigger] more[i]).0 == k;
        lemma_block_of(more, i);
        if i < waiting.len() {
            assert(more[i] == waiting[i]);
            lemma_block_of(waiting, i);
        }
    }
    assert(waiting_map(more) =~= waiting_map(waiting).insert(number as nat, block@));
}

/// Taking the entry at `at` out, the last entry moving into its place,
/// removes its number from the waiting blocks and changes no other.
proof fn lemma_waiting_swap_remove(
    waiting: Seq<(u64, Vec<u8>)>,
    at: int,
    left: Seq<(u64, Vec<u8>)>,
)
    requires
        0 <= at < waiting.len(),
        left == waiting.update(at, waiting.last()).drop_last(),
        forall|i: int, j: int|
            0 <= i < j < waiting.len() ==> (#[trigger] waiting[i]).0 != (#[trigger] waiting[j]).0,
    ensures
        forall|i: int, j: int|
            0 <= i < j < left.len() ==> (#[trigger] left[i]).0 != (#[trigger] left[j]).0,
        forall|k: nat| #[trigger]
            listed(left, k) <==> listed(waiting, k) && k != waiting[at].0,
        forall|k: nat| listed(left, k) ==> #[trigger] block_of(left, k) == block_of(waiting, k),
        forall|i: int|
            0 <= i < left.len() ==> exists|j: int|
                0 <= j < waiting.len() && waiting[j] == #[trigger] left[i],
{
    let last = waiting.len() - 1;
    assert forall|i: int| 0 <= i < left.len() implies exists|j: int|
        0 <= j < waiting.len() && waiting[j] == #[trigger] left[i] by {
        if i == at {
            assert(waiting[last] == left[i]);
        } else {
            assert(waiting[i] == left[i]);
        }
    }
    assert forall|i: int, j: int| 0 <= i < j < left.len() implies (#[trigger] left[i]).0 != (
    #[trigger] left[j]).0 by {
        let a = if i == at {
            last
        } else {
            i
        };
        let b = if j == at {
            last
        } else {
            j
        };
        assert(left[i] == waiting[a]);
        assert(left[j] == waiting[b]);
        if a < b {
            assert(waiting[a].0 != waiting[b].0);
        } else {
            assert(waiting[b].0 != waiting[a].0);
        }
    }
    assert forall|k: nat| #[trigger]
        listed(left, k) <==> listed(waiting, k) && k != waiting[at].0 by {
        if listed(left, k) {
            let i = choose|i: int| 0 <= i < left.len() && (#[trigger] left[i]).0 == k;
            let a = if i == at {
                last
            } else {
                i
            };
            assert(left[i] == waiting[a]);
            assert(waiting[a].0 == k);
            if a < at {
                assert(waiting[a].0 != waiting[at].0);
            } else if at < a {
                assert(waiting[at].0 != waiting[a].0);
            }
        }
        if listed(waiting, k) && k != waiting[at].0 {
            let j = choose|j: int| 0 <= j < waiting.len() && (#[trigger] waiting[j]).0 == k;
            if j == last {
                assert(left[at].0 == k);
            } else {
                assert(left[j].0 == k);
            }
        }
    }
    assert forall|k: nat| listed(left, k) implies #[trigger] block_of(left, k) == block_of(
        waiting,
        k,
    ) by {
        let i = choose|i: int| 0 <= i < left.len() && (#[trigger] left[i]).0 == k;
        let a = if i == at {
            last
        } else {
            i
        };
        assert(left[i] == waiting[a]);
        lemma_block_of(left, i);
        lemma_block_of(waiting, a);
    }
}

} // verus!
