//! Hashed n-gram ("engram") table indices.
use vstd::prelude::*;

verus! {

pub const ENGRAM_SEED: u32 = 0x9E37_79B9;

pub const ENGRAM_PRIME: u32 = 0x0100_0193;

/// The token `j` places before `position`, or 0 before the start.
pub open spec fn context_token(tokens: Seq<u32>, position: int, j: int) -> u32 {
    if j <= position {
        tokens[position - j]
    } else {
        0
    }
}

/// The FNV-style hash state after mixing in the `n` most recent tokens.
pub open spec fn hash_steps(tokens: Seq<u32>, position: int, seed: u32, n: nat) -> u32
    decreases n,
{
    if n == 0 {
        seed
    } else {
        (hash_steps(tokens, position, seed, (n - 1) as nat) ^ context_token(
            tokens,
            position,
            n - 1,
        )).wrapping_mul(ENGRAM_PRIME)
    }
}

/// The seed of hash head `head` of the order at `order_index`.
pub open spec fn head_seed(order_index: int, heads: int, head: int) -> u32 {
    ENGRAM_SEED.wrapping_mul((order_index * heads + head + 1) as u32)
}

/// The table slot of one (position, order, head) triple.
pub open spec fn engram_index(
    tokens: Seq<u32>,
    orders: Seq<usize>,
    heads: int,
    slots: u32,
    position: int,
    order_index: int,
    head: int,
) -> u32 {
    let acc = hash_steps(
        tokens,
        position,
        head_seed(order_index, heads, head),
        orders[order_index] as nat,
    );
    ((acc ^ (acc >> 15u32)) % slots) as u32
}

/// The slots of all heads of one order at one position.
pub open spec fn order_block(
    tokens: Seq<u32>,
    orders: Seq<usize>,
    heads: int,
    slots: u32,
    position: int,
    order_index: int,
) -> Seq<u32> {
    Seq::new(
        heads as nat,
        |h: int| engram_index(tokens, orders, heads, slots, position, order_index, h),
    )
}

/// The slots of the first `n` orders at one position.
pub open spec fn position_block(
    tokens: Seq<u32>,
    orders: Seq<usize>,
    heads: int,
    slots: u32,
    position: int,
    n: int,
) -> Seq<u32>
    decreases n,
{
    if n <= 0 {
        seq![]
    } else {
        position_block(tokens, orders, heads, slots, position, n - 1) + order_block(
            tokens,
            orders,
            heads,
            slots,
            position,
            n - 1,
        )
    }
}

/// The slots of the first `n` positions, laid out position-major, then by
/// order, then by head.
pub open spec fn engram_table(
    tokens: Seq<u32>,
    orders: Seq<usize>,
    heads: int,
    slots: u32,
    n: int,
) -> Seq<u32>
    decreases n,
{
    if n <= 0 {
        seq![]
    } else {
        engram_table(tokens, orders, heads, slots, n - 1) + position_block(
            tokens,
            orders,
            heads,
            slots,
            n - 1,
            orders.len() as int,
        )
    }
}

/// Hashed n-gram slots for every position of `tokens`, every n-gram order in
/// `orders` and every one of `heads` hash heads.
pub fn engram_indices(tokens: &[u32], orders: &[usize], heads: usize, slots: u32) -> (r: Vec<u32>)
    requires
        tokens@.len() * orders@.len() <= usize::MAX,
        tokens@.len() * orders@.len() * heads <= usize::MAX,
        tokens@.len() * orders@.len() * heads > 0 ==> slots > 0,
    ensures
        r@ == engram_table(tokens@, orders@, heads as int, slots, tokens@.len() as int),
{
    let mut output: Vec<u32> = Vec::new();
    let mut position: usize = 0;
    while position < tokens.len()
        invariant
            position <= tokens@.len(),
            tokens@.len() * orders@.len() * heads <= usize::MAX,
            tokens@.len() * orders@.len() * heads > 0 ==> slots > 0,
            output@ == engram_table(tokens@, orders@, heads as int, slots, position as int),
        decreases tokens@.len() - position,
    {
        assert(orders@.len() * heads <= tokens@.len() * orders@.len() * heads) by (nonlinear_arith)
            requires
                tokens@.len() >= 1,
        ;
        let ghost before_position = output@;
        let mut order_index: usize = 0;
        while order_index < orders.len()
            invariant
                position < tokens@.len(),
                order_index <= orders@.len(),
                orders@.len() * heads <= usize::MAX,
                tokens@.len() * orders@.len() * heads > 0 ==> slots > 0,
                output@ == before_position + position_block(
                    tokens@,
                    orders@,
                    heads as int,
                    slots,
                    position as int,
                    order_index as int,
                ),
            decreases orders@.len() - order_index,
        {
            let order = orders[order_index];
            let ghost before_order = output@;
            let mut head: usize = 0;
            while head < heads
                invariant
                    position < tokens@.len(),
                    order_index < orders@.len(),
                    order == orders@[order_index as int],
                    head <= heads,
                    orders@.len() * heads <= usize::MAX,
                    tokens@.len() * orders@.len() * heads > 0 ==> slots > 0,
                    output@ == before_order + order_block(
                        tokens@,
                        orders@,
                        heads as int,
                        slots,
                        position as int,
                        order_index as int,
                    ).take(head as int),
                decreases heads - head,
            {
                assert(order_index * heads + head + 1 <= orders@.len() * heads) by (nonlinear_arith)
                    requires
                        order_index < orders@.len(),
                        head < heads,
                ;
                assert(tokens@.len() * orders@.len() * heads > 0) by (nonlinear_arith)
                    requires
                        position < tokens@.len(),
                        order_index < orders@.len(),
                        head < heads,
                ;
                let seed = ENGRAM_SEED.wrapping_mul((order_index * heads + head + 1) as u32);
                let mut acc = seed;
                let mut j: usize = 0;
                while j < order
                    invariant
                        j <= order,
                        position < tokens@.len(),
                        acc == hash_steps(tokens@, position as int, seed, j as nat),
                    decreases order - j,
                {
                    let token = if j <= position {
                        tokens[position - j]
                    } else {
                        0
                    };
                    acc = (acc ^ token).wrapping_mul(ENGRAM_PRIME);
                    j = j + 1;
                }
                acc = acc ^ (acc >> 15u32);
                output.push(acc % slots);
                proof {
                    let blk = order_block(
                        tokens@,
                        orders@,
                        heads as int,
                        slots,
                        position as int,
                        order_index as int,
                    );
                    assert(blk.take(head + 1) =~= blk.take(head as int).push(blk[head as int]));
                }
                head = head + 1;
            }
            proof {
                let blk = order_block(
                    tokens@,
                    orders@,
                    heads as int,
                    slots,
                    position as int,
                    order_index as int,
                );
                assert(blk.take(heads as int) =~= blk);
                assert(output@ =~= before_position + position_block(
                    tokens@,
                    orders@,
                    heads as int,
                    slots,
                    position as int,
                    order_index + 1,
                ));
            }
            order_index = order_index + 1;
        }
        position = position + 1;
    }
    output
}

/// The table row that position `t` reads from hash table `table` (order
/// `orders[table / heads]`, head `table % heads`): its slot in `indices`
/// once `t` has a full n-gram of history, and no row before that.
pub fn engram_slot(indices: &[u32], orders: &[usize], heads: usize, t: usize, table: usize) -> (r:
    Option<usize>)
    requires
        heads > 0,
        table < orders@.len() * heads <= usize::MAX,
        t * (orders@.len() * heads) + table < indices@.len(),
    ensures
        r == if t + 1 >= orders@[(table / heads) as int] {
            Some(indices@[t * (orders@.len() * heads) + table] as usize)
        } else {
            None::<usize>
        },
{
    let width = orders.len() * heads;
    assert(t <= t * width && table / heads < orders@.len()) by (nonlinear_arith)
        requires
            heads > 0,
            table < width,
            width == orders@.len() * heads,
    ;
    let n = indices.len();
    assert(t * width + table < n);
    let order = orders[table / heads];
    if t + 1 >= order {
        Some(indices[t * width + table] as usize)
    } else {
        None
    }
}

proof fn lemma_position_block(
    tokens: Seq<u32>,
    orders: Seq<usize>,
    heads: int,
    slots: u32,
    position: int,
    n: int,
)
    requires
        0 <= n,
        heads >= 0,
    ensures
        position_block(tokens, orders, heads, slots, position, n).len() == n * heads,
        forall|oi: int, h: int|
            0 <= oi < n && 0 <= h < heads ==> #[trigger] position_block(
                tokens,
                orders,
                heads,
                slots,
                position,
                n,
            )[oi * heads + h] == engram_index(tokens, orders, heads, slots, position, oi, h),
    decreases n,
{
    if n == 0 {
        assert(n * heads == 0) by (nonlinear_arith)
            requires
                n == 0,
        ;
    } else {
        lemma_position_block(tokens, orders, heads, slots, position, n - 1);
        let pb = position_block(tokens, orders, heads, slots, position, n - 1);
        let ob = order_block(tokens, orders, heads, slots, position, n - 1);
        assert(ob.len() == heads);
        assert((n - 1) * heads + heads == n * heads) by (nonlinear_arith);
        assert forall|oi: int, h: int| 0 <= oi < n && 0 <= h < heads implies #[trigger]
            position_block(tokens, orders, heads, slots, position, n)[oi * heads + h]
            == engram_index(tokens, orders, heads, slots, position, oi, h) by {
            if oi < n - 1 {
                assert(oi * heads + h < (n - 1) * heads) by (nonlinear_arith)
                    requires
                        0 <= oi < n - 1,
                        0 <= h < heads,
                ;
                assert(0 <= oi * heads) by (nonlinear_arith)
                    requires
                        0 <= oi,
                        0 <= heads,
                ;
            } else {
                assert(oi * heads + h - pb.len() == h) by (nonlinear_arith)
                    requires
                        oi == n - 1,
                        pb.len() == (n - 1) * heads,
                ;
            }
        }
    }
}

/// The engram table has one slot for each (position, order, head)
/// triple; the slot of position `p`, order `o` and head `h` sits at
/// `(p * orders + o) * heads + h` and is the hashed slot of that triple,
/// below `slots`.
pub proof fn lemma_engram_table(
    tokens: Seq<u32>,
    orders: Seq<usize>,
    heads: int,
    slots: u32,
    n: int,
)
    requires
        0 <= n,
        heads >= 0,
        slots > 0,
    ensures
        engram_table(tokens, orders, heads, slots, n).len() == n * (orders.len() * heads),
        forall|p: int, oi: int, h: int|
            0 <= p < n && 0 <= oi < orders.len() && 0 <= h < heads ==> {
                let v = #[trigger] engram_table(tokens, orders, heads, slots, n)[(p * orders.len()
                    + oi) * heads + h];
                v == engram_index(tokens, orders, heads, slots, p, oi, h) && v < slots
            },
    decreases n,
{
    let w = orders.len() * heads;
    assert(w >= 0) by (nonlinear_arith)
        requires
            heads >= 0,
            w == orders.len() * heads,
    ;
    if n == 0 {
        assert(n * w == 0) by (nonlinear_arith)
            requires
                n == 0,
        ;
    }
    if n > 0 {
        lemma_engram_table(tokens, orders, heads, slots, n - 1);
        lemma_position_block(tokens, orders, heads, slots, n - 1, orders.len() as int);
        let t = engram_table(tokens, orders, heads, slots, n - 1);
        assert((n - 1) * w + w == n * w) by (nonlinear_arith);
        assert forall|p: int, oi: int, h: int|
            0 <= p < n && 0 <= oi < orders.len() && 0 <= h < heads implies {
            let v = #[trigger] engram_table(tokens, orders, heads, slots, n)[(p * orders.len()
                + oi) * heads + h];
            v == engram_index(tokens, orders, heads, slots, p, oi, h) && v < slots
        } by {
            let k = (p * orders.len() + oi) * heads + h;
            assert(k == p * w + (oi * heads + h)) by (nonlinear_arith)
                requires
                    k == (p * orders.len() + oi) * heads + h,
                    w == orders.len() * heads,
            ;
            assert(0 <= oi * heads + h < w) by (nonlinear_arith)
                requires
                    0 <= oi < orders.len(),
                    0 <= h < heads,
                    w == orders.len() * heads,
            ;
            if p < n - 1 {
                assert(p * w + w <= (n - 1) * w) by (nonlinear_arith)
                    requires
                        0 <= p < n - 1,
                        w >= 0,
                ;
                assert(0 <= p * w) by (nonlinear_arith)
                    requires
                        0 <= p,
                        w >= 0,
                ;
            } else {
                assert(p * w == t.len());
            }
        }
    }
}

proof fn lemma_hash_steps_prefix(tokens: Seq<u32>, p: int, position: int, seed: u32, n: nat)
    requires
        0 <= position < p <= tokens.len(),
    ensures
        hash_steps(tokens.take(p), position, seed, n) == hash_steps(tokens, position, seed, n),
    decreases n,
{
    if n > 0 {
        lemma_hash_steps_prefix(tokens, p, position, seed, (n - 1) as nat);
        assert(context_token(tokens.take(p), position, n - 1) == context_token(
            tokens,
            position,
            n - 1,
        ));
    }
}

proof fn lemma_position_block_prefix(
    tokens: Seq<u32>,
    p: int,
    orders: Seq<usize>,
    heads: int,
    slots: u32,
    position: int,
    n: int,
)
    requires
        0 <= position < p <= tokens.len(),
        heads >= 0,
    ensures
        position_block(tokens.take(p), orders, heads, slots, position, n) == position_block(
            tokens,
            orders,
            heads,
            slots,
            position,
            n,
        ),
    decreases n,
{
    if n > 0 {
        lemma_position_block_prefix(tokens, p, orders, heads, slots, position, n - 1);
        assert forall|h: int| 0 <= h < heads implies #[trigger] engram_index(
            tokens.take(p),
            orders,
            heads,
            slots,
            position,
            n - 1,
            h,
        ) == engram_index(tokens, orders, heads, slots, position, n - 1, h) by {
            lemma_hash_steps_prefix(
                tokens,
                p,
                position,
                head_seed(n - 1, heads, h),
                orders[n - 1] as nat,
            );
        }
        assert(order_block(tokens.take(p), orders, heads, slots, position, n - 1) =~= order_block(
            tokens,
            orders,
            heads,
            slots,
            position,
            n - 1,
        ));
    }
}

proof fn lemma_table_same_prefix(
    tokens: Seq<u32>,
    p: int,
    orders: Seq<usize>,
    heads: int,
    slots: u32,
    m: int,
)
    requires
        0 <= m <= p <= tokens.len(),
        heads >= 0,
    ensures
        engram_table(tokens.take(p), orders, heads, slots, m) == engram_table(
            tokens,
            orders,
            heads,
            slots,
            m,
        ),
    decreases m,
{
    if m > 0 {
        lemma_table_same_prefix(tokens, p, orders, heads, slots, m - 1);
        lemma_position_block_prefix(
            tokens,
            p,
            orders,
            heads,
            slots,
            m - 1,
            orders.len() as int,
        );
    }
}

proof fn lemma_table_len(tokens: Seq<u32>, orders: Seq<usize>, heads: int, slots: u32, n: int)
    requires
        0 <= n,
        heads >= 0,
    ensures
        engram_table(tokens, orders, heads, slots, n).len() == n * (orders.len() * heads),
    decreases n,
{
    if n == 0 {
        assert(n * (orders.len() * heads) == 0) by (nonlinear_arith)
            requires
                n == 0,
        ;
    } else {
        lemma_table_len(tokens, orders, heads, slots, n - 1);
        lemma_position_block(tokens, orders, heads, slots, n - 1, orders.len() as int);
        assert((n - 1) * (orders.len() * heads) + orders.len() * heads == n * (orders.len()
            * heads)) by (nonlinear_arith);
    }
}

proof fn lemma_table_take(
    tokens: Seq<u32>,
    orders: Seq<usize>,
    heads: int,
    slots: u32,
    m: int,
    n: int,
)
    requires
        0 <= m <= n,
        heads >= 0,
    ensures
        engram_table(tokens, orders, heads, slots, n).take(m * (orders.len() * heads))
            == engram_table(tokens, orders, heads, slots, m),
    decreases n,
{
    let w = orders.len() * heads;
    lemma_table_len(tokens, orders, heads, slots, m);
    lemma_table_len(tokens, orders, heads, slots, n);
    if m == n {
        assert(engram_table(tokens, orders, heads, slots, n).take(m * w) =~= engram_table(
            tokens,
            orders,
            heads,
            slots,
            n,
        ));
    } else {
        lemma_table_take(tokens, orders, heads, slots, m, n - 1);
        lemma_table_len(tokens, orders, heads, slots, n - 1);
        assert(m * w <= (n - 1) * w) by (nonlinear_arith)
            requires
                0 <= m <= n - 1,
                w >= 0,
        ;
        assert(w >= 0) by (nonlinear_arith)
            requires
                heads >= 0,
                w == orders.len() * heads,
        ;
        let prev = engram_table(tokens, orders, heads, slots, n - 1);
        assert(engram_table(tokens, orders, heads, slots, n).take(m * w) =~= prev.take(m * w));
    }
}

/// Slots depend only on the current and earlier tokens: the table of the
/// first `p` tokens is the start of the table of all of them, one
/// `orders.len() * heads` run of slots per position.
pub proof fn lemma_engram_table_prefix(
    tokens: Seq<u32>,
    orders: Seq<usize>,
    heads: int,
    slots: u32,
    p: int,
)
    requires
        0 <= p <= tokens.len(),
        heads >= 0,
    ensures
        engram_table(tokens.take(p), orders, heads, slots, p) == engram_table(
            tokens,
            orders,
            heads,
            slots,
            tokens.len() as int,
        ).take(p * (orders.len() * heads)),
{
    lemma_table_same_prefix(tokens, p, orders, heads, slots, p);
    lemma_table_take(tokens, orders, heads, slots, p, tokens.len() as int);
}

proof fn lemma_hash_steps_fold(tokens: Seq<u32>, position: int, seed: u32, n: nat)
    requires
        0 <= position < tokens.len(),
    ensures
        hash_steps(tokens, position, seed, n) == Seq::new(
            n,
            |j: int|
                if j <= position {
                    tokens[position - j]
                } else {
                    0u32
                },
        ).fold_left(seed, |a: u32, x: u32| (a ^ x).wrapping_mul(ENGRAM_PRIME)),
    decreases n,
{
    let window = Seq::new(
        n,
        |j: int|
            if j <= position {
                tokens[position - j]
            } else {
                0u32
            },
    );
    if n > 0 {
        lemma_hash_steps_fold(tokens, position, seed, (n - 1) as nat);
        let shorter = Seq::new(
            (n - 1) as nat,
            |j: int|
                if j <= position {
                    tokens[position - j]
                } else {
                    0u32
                },
        );
        assert(window.drop_last() =~= shorter);
        assert(window.last() == context_token(tokens, position, n - 1));
    }
}

/// Each slot hashes the exact token ids of the n-gram ending at its
/// position: the FNV-style fold `acc = (acc ^ token) * PRIME` (wrapping)
/// over the position's token, then each earlier one (0 before the start),
/// from the seed of its (order, head) pair; the slot is the folded-down
/// `acc ^ (acc >> 15)` modulo `slots`.
pub proof fn lemma_engram_slot_hash(
    tokens: Seq<u32>,
    orders: Seq<usize>,
    heads: int,
    slots: u32,
    p: int,
    oi: int,
    h: int,
)
    requires
        0 <= p < tokens.len(),
        0 <= oi < orders.len(),
        0 <= h < heads,
        slots > 0,
    ensures
        ({
            let window = Seq::new(
                orders[oi] as nat,
                |j: int|
                    if j <= p {
                        tokens[p - j]
                    } else {
                        0u32
                    },
            );
            let seed = ENGRAM_SEED.wrapping_mul((oi * heads + h + 1) as u32);
            let acc = window.fold_left(seed, |a: u32, x: u32| (a ^ x).wrapping_mul(ENGRAM_PRIME));
            engram_table(tokens, orders, heads, slots, tokens.len() as int)[(p * orders.len() + oi)
                * heads + h] == ((acc ^ (acc >> 15u32)) % slots) as u32
        }),
{
    lemma_engram_table(tokens, orders, heads, slots, tokens.len() as int);
    lemma_hash_steps_fold(tokens, p, head_seed(oi, heads, h), orders[oi] as nat);
}

} // verus!
