//! What translation means: the operations a source spells, the nesting depth
//! of a prefix, which brackets enclose which, and the jump map that follows.

use crate::opcode::command;
use crate::opcode::OpCode;
use vstd::prelude::*;

verus! {

/// The operations that a source spells, in source order, comments dropped.
pub open spec fn commands(code: Seq<u8>) -> Seq<OpCode>
    decreases code.len(),
{
    if code.len() == 0 {
        Seq::empty()
    } else {
        match command(code.last()) {
            Some(op) => commands(code.drop_last()).push(op),
            None => commands(code.drop_last()),
        }
    }
}

/// What one operation adds to the nesting depth.
pub open spec fn weight(op: OpCode) -> int {
    match op {
        OpCode::LoopBegin => 1,
        OpCode::LoopEnd => -1,
        _ => 0,
    }
}

/// Opening minus closing brackets among the first `n` operations.
pub open spec fn depth(ops: Seq<OpCode>, n: int) -> int
    decreases n,
{
    if 0 < n <= ops.len() {
        depth(ops, n - 1) + weight(ops[n - 1])
    } else {
        0
    }
}

/// No prefix of `ops` closes more brackets than it has opened.
pub open spec fn never_negative(ops: Seq<OpCode>) -> bool {
    forall|k: int| 0 <= k <= ops.len() ==> #[trigger] depth(ops, k) >= 0
}

/// Every bracket of `ops` has its partner.
pub open spec fn balanced(ops: Seq<OpCode>) -> bool {
    never_negative(ops) && depth(ops, ops.len() as int) == 0
}

/// Position `p` holds the first closing bracket with no opening bracket left
/// for it.
pub open spec fn stray_close(ops: Seq<OpCode>, p: int) -> bool {
    &&& 0 <= p < ops.len()
    &&& depth(ops, p + 1) < 0
    &&& forall|k: int| 0 <= k <= p ==> #[trigger] depth(ops, k) >= 0
}

/// The bracket at `open` begins the loop that the bracket at `close` ends:
/// the depth comes back to what it was before `open` for the first time
/// right after `close`.
pub open spec fn encloses(ops: Seq<OpCode>, open: int, close: int) -> bool {
    &&& 0 <= open < close < ops.len()
    &&& ops[open] == OpCode::LoopBegin
    &&& ops[close] == OpCode::LoopEnd
    &&& depth(ops, close + 1) == depth(ops, open)
    &&& forall|k: int| open < k <= close ==> #[trigger] depth(ops, k) > depth(ops, open)
}

/// Positions `i` and `j` hold the two brackets of one loop, in either order.
pub open spec fn linked(ops: Seq<OpCode>, i: int, j: int) -> bool {
    encloses(ops, i, j) || encloses(ops, j, i)
}

/// Position `i` holds a bracket that has a partner.
pub open spec fn has_partner(ops: Seq<OpCode>, i: int) -> bool {
    exists|j: int| linked(ops, i, j)
}

/// The position of the partner of the bracket at `i`.
pub open spec fn partner(ops: Seq<OpCode>, i: int) -> int {
    choose|j: int| linked(ops, i, j)
}

/// The jump map of an operation sequence: each bracket that has a partner
/// maps to it, and nothing else is a key.
pub open spec fn jump_map(ops: Seq<OpCode>) -> Map<usize, usize> {
    Map::new(
        |i: usize| has_partner(ops, i as int),
        |i: usize| partner(ops, i as int) as usize,
    )
}

/// The opening bracket at `at` is still open at the end of `ops`, with `level`
/// brackets open before it.
pub open spec fn pending(ops: Seq<OpCode>, at: int, level: int) -> bool {
    &&& 0 <= at < ops.len()
    &&& ops[at] == OpCode::LoopBegin
    &&& depth(ops, at) == level
    &&& forall|k: int| at < k <= ops.len() ==> #[trigger] depth(ops, k) > level
}

/// `a` is an initial part of `b`.
pub open spec fn starts(a: Seq<OpCode>, b: Seq<OpCode>) -> bool {
    a.len() <= b.len() && forall|k: int| 0 <= k < a.len() ==> a[k] == b[k]
}

/// The depth of a prefix does not depend on what follows it.
pub proof fn lemma_depth_starts(a: Seq<OpCode>, b: Seq<OpCode>, n: int)
    requires
        starts(a, b),
        0 <= n <= a.len(),
    ensures
        depth(a, n) == depth(b, n),
    decreases n,
{
    if n > 0 {
        lemma_depth_starts(a, b, n - 1);
    }
}

/// Appending an operation leaves the depth of every earlier prefix as it was.
pub proof fn lemma_depth_push(ops: Seq<OpCode>, op: OpCode)
    ensures
        forall|k: int| 0 <= k <= ops.len() ==> #[trigger] depth(ops.push(op), k) == depth(ops, k),
        depth(ops.push(op), ops.len() as int + 1) == depth(ops, ops.len() as int) + weight(op),
{
    let next = ops.push(op);
    assert(starts(ops, next));
    assert forall|k: int| 0 <= k <= ops.len() implies #[trigger] depth(next, k) == depth(ops, k) by {
        lemma_depth_starts(ops, next, k);
    }
    let n = ops.len() as int;
    assert(depth(next, n + 1) == depth(next, n) + weight(next[n]));
}

/// A bracket has at most one partner.
pub proof fn lemma_linked_unique(ops: Seq<OpCode>, i: int, j: int, k: int)
    requires
        linked(ops, i, j),
        linked(ops, i, k),
    ensures
        j == k,
{
    if encloses(ops, i, j) && encloses(ops, i, k) {
        if j < k {
            assert(depth(ops, j + 1) > depth(ops, i));
        }
        if k < j {
            assert(depth(ops, k + 1) > depth(ops, i));
        }
    } else if encloses(ops, j, i) && encloses(ops, k, i) {
        if j < k {
            assert(depth(ops, k) > depth(ops, j));
        }
        if k < j {
            assert(depth(ops, j) > depth(ops, k));
        }
    }
}

/// The jump map holds exactly the linked pairs.
pub proof fn lemma_jump_map_entry(ops: Seq<OpCode>, i: int, j: int)
    requires
        linked(ops, i, j),
        ops.len() <= usize::MAX,
    ensures
        jump_map(ops).contains_key(i as usize),
        jump_map(ops)[i as usize] == j,
{
    assert(has_partner(ops, i));
    lemma_linked_unique(ops, i, j, partner(ops, i));
}

/// Every key of the jump map is linked to its value.
pub proof fn lemma_jump_map_linked(ops: Seq<OpCode>, key: usize)
    requires
        jump_map(ops).contains_key(key),
        ops.len() <= usize::MAX,
    ensures
        linked(ops, key as int, jump_map(ops)[key] as int),
{
    assert(linked(ops, key as int, partner(ops, key as int)));
}

/// A source spells at most as many operations as it has bytes.
pub proof fn lemma_commands_len(code: Seq<u8>)
    ensures
        commands(code).len() <= code.len(),
    decreases code.len(),
{
    if code.len() > 0 {
        lemma_commands_len(code.drop_last());
    }
}

/// Reading one more byte appends the operation it spells, if it spells one.
pub proof fn lemma_commands_next(code: Seq<u8>, i: int)
    requires
        0 <= i < code.len(),
    ensures
        commands(code.take(i + 1)) == match command(code[i]) {
            Some(op) => commands(code.take(i)).push(op),
            None => commands(code.take(i)),
        },
{
    assert(code.take(i + 1).drop_last() =~= code.take(i));
}

/// What the first `i` bytes spell is an initial part of what the whole source
/// spells.
pub proof fn lemma_commands_starts(code: Seq<u8>, i: int)
    requires
        0 <= i <= code.len(),
    ensures
        starts(commands(code.take(i)), commands(code)),
    decreases code.len(),
{
    if i == code.len() {
        assert(code.take(i) =~= code);
    } else {
        assert(code.drop_last().take(i) =~= code.take(i));
        lemma_commands_starts(code.drop_last(), i);
    }
}

/// Appending anything but a closing bracket leaves the jump map as it was.
pub proof fn lemma_jump_map_push_plain(ops: Seq<OpCode>, op: OpCode)
    requires
        op != OpCode::LoopEnd,
        ops.len() < usize::MAX,
    ensures
        jump_map(ops.push(op)) == jump_map(ops),
{
    let next = ops.push(op);
    lemma_depth_push(ops, op);
    assert forall|i: int, j: int| linked(next, i, j) == linked(ops, i, j) by {
        lemma_encloses_push(ops, op, i, j);
        lemma_encloses_push(ops, op, j, i);
    }
    assert forall|key: usize| #[trigger]
        jump_map(next).contains_key(key) == jump_map(ops).contains_key(key) by {
        if jump_map(next).contains_key(key) {
            let j = partner(next, key as int);
            assert(linked(ops, key as int, j));
        }
        if jump_map(ops).contains_key(key) {
            let j = partner(ops, key as int);
            assert(linked(next, key as int, j));
        }
    }
    assert forall|key: usize| #[trigger]
        jump_map(next).contains_key(key) implies jump_map(next)[key] == jump_map(ops)[key] by {
        lemma_jump_map_linked(next, key);
        lemma_jump_map_entry(ops, key as int, jump_map(next)[key] as int);
    }
    assert(jump_map(next) =~= jump_map(ops));
}

/// An earlier pair of brackets is a loop after an append if and only if it
/// was one before.
pub proof fn lemma_encloses_push(ops: Seq<OpCode>, op: OpCode, open: int, close: int)
    ensures
        close < ops.len() ==> encloses(ops.push(op), open, close) == encloses(ops, open, close),
        close >= ops.len() ==> !encloses(ops, open, close),
        close > ops.len() ==> !encloses(ops.push(op), open, close),
        op != OpCode::LoopEnd ==> !encloses(ops.push(op), open, ops.len() as int),
{
    lemma_depth_push(ops, op);
    let next = ops.push(op);
    if 0 <= open < close < ops.len() {
        assert(next[open] == ops[open]);
        assert(next[close] == ops[close]);
        assert(depth(next, close + 1) == depth(ops, close + 1));
        assert(depth(next, open) == depth(ops, open));
        if encloses(ops, open, close) {
            assert forall|k: int| open < k <= close implies #[trigger] depth(next, k) > depth(
                next,
                open,
            ) by {
                assert(depth(ops, k) > depth(ops, open));
            }
        }
        if encloses(next, open, close) {
            assert forall|k: int| open < k <= close implies #[trigger] depth(ops, k) > depth(
                ops,
                open,
            ) by {
                assert(depth(next, k) > depth(next, open));
            }
        }
    }
}

/// Appending a closing bracket links it with the innermost bracket that was
/// still open, and changes nothing else in the jump map.
pub proof fn lemma_jump_map_push_close(ops: Seq<OpCode>, at: int)
    requires
        pending(ops, at, depth(ops, ops.len() as int) - 1),
        ops.len() < usize::MAX,
    ensures
        encloses(ops.push(OpCode::LoopEnd), at, ops.len() as int),
        jump_map(ops.push(OpCode::LoopEnd)) == jump_map(ops).insert(
            at as usize,
            ops.len() as usize,
        ).insert(ops.len() as usize, at as usize),
{
    let n = ops.len() as int;
    let next = ops.push(OpCode::LoopEnd);
    let grown = jump_map(ops).insert(at as usize, n as usize).insert(n as usize, at as usize);
    lemma_depth_push(ops, OpCode::LoopEnd);
    assert(encloses(next, at, n)) by {
        assert(next[at] == ops[at]);
        assert forall|k: int| at < k <= n implies #[trigger] depth(next, k) > depth(next, at) by {
            assert(depth(ops, k) > depth(ops, at));
        }
    }
    lemma_jump_map_entry(next, at, n);
    lemma_jump_map_entry(next, n, at);
    assert forall|key: usize| #[trigger] jump_map(next).contains_key(key) implies grown.contains_key(
        key,
    ) && grown[key] == jump_map(next)[key] by {
        lemma_jump_map_linked(next, key);
        let j = jump_map(next)[key] as int;
        if key == n {
            lemma_linked_unique(next, n, at, j);
        } else if key == at {
            lemma_linked_unique(next, at, n, j);
        } else {
            if j == n {
                lemma_linked_unique(next, n, at, key as int);
            }
            lemma_encloses_push(ops, OpCode::LoopEnd, key as int, j);
            lemma_encloses_push(ops, OpCode::LoopEnd, j, key as int);
            assert(linked(ops, key as int, j));
            lemma_jump_map_entry(ops, key as int, j);
        }
    }
    assert forall|key: usize| #[trigger] grown.contains_key(key) implies jump_map(
        next,
    ).contains_key(key) by {
        if key != n && key != at {
            lemma_jump_map_linked(ops, key);
            let j = jump_map(ops)[key] as int;
            lemma_encloses_push(ops, OpCode::LoopEnd, key as int, j);
            lemma_encloses_push(ops, OpCode::LoopEnd, j, key as int);
            assert(linked(next, key as int, j));
            lemma_jump_map_entry(next, key as int, j);
        }
    }
    assert(jump_map(next) =~= grown);
}

/// An opening bracket has a partner as soon as the depth comes back, anywhere
/// after it, to what it was before it: the search from `from` on finds the
/// closing bracket.
pub proof fn lemma_find_close(ops: Seq<OpCode>, open: int, from: int, back: int) -> (close: int)
    requires
        0 <= open < from <= back <= ops.len(),
        ops[open] == OpCode::LoopBegin,
        depth(ops, back) <= depth(ops, open),
        forall|k: int| open < k <= from ==> #[trigger] depth(ops, k) > depth(ops, open),
    ensures
        encloses(ops, open, close),
        close < back,
    decreases back - from,
{
    assert(depth(ops, from) > depth(ops, open));
    assert(depth(ops, from + 1) == depth(ops, from) + weight(ops[from]));
    if depth(ops, from + 1) > depth(ops, open) {
        lemma_find_close(ops, open, from + 1, back)
    } else {
        from
    }
}

/// A closing bracket has a partner as soon as the depth right after it is
/// not negative: the search from `from` back finds the opening bracket.
pub proof fn lemma_find_open(ops: Seq<OpCode>, close: int, from: int) -> (open: int)
    requires
        0 <= from <= close < ops.len(),
        ops[close] == OpCode::LoopEnd,
        depth(ops, close + 1) >= 0,
        forall|k: int| from < k <= close ==> #[trigger] depth(ops, k) > depth(ops, close + 1),
    ensures
        encloses(ops, open, close),
    decreases from,
{
    if depth(ops, from) > depth(ops, close + 1) {
        lemma_find_open(ops, close, from - 1)
    } else {
        assert(depth(ops, from + 1) > depth(ops, close + 1));
        from
    }
}

/// The jump map is an involution: the partner of a key is a key, and its
/// partner is the key again. Every key is a bracket, an opening one maps
/// forward to a closing one and a closing one back to an opening one.
pub proof fn lemma_jump_map_involution(ops: Seq<OpCode>)
    requires
        ops.len() <= usize::MAX,
    ensures
        forall|key: usize| #[trigger]
            jump_map(ops).contains_key(key) ==> {
                let other = jump_map(ops)[key];
                &&& jump_map(ops).contains_key(other)
                &&& jump_map(ops)[other] == key
                &&& key < ops.len()
                &&& other < ops.len()
                &&& other != key
                &&& (ops[key as int] == OpCode::LoopBegin ==> key < other && ops[other as int]
                    == OpCode::LoopEnd)
                &&& (ops[key as int] == OpCode::LoopEnd ==> other < key && ops[other as int]
                    == OpCode::LoopBegin)
                &&& (ops[key as int] == OpCode::LoopBegin || ops[key as int] == OpCode::LoopEnd)
            },
{
    assert forall|key: usize| #[trigger] jump_map(ops).contains_key(key) implies {
        let other = jump_map(ops)[key];
        &&& jump_map(ops).contains_key(other)
        &&& jump_map(ops)[other] == key
        &&& key < ops.len()
        &&& other < ops.len()
        &&& other != key
        &&& (ops[key as int] == OpCode::LoopBegin ==> key < other && ops[other as int]
            == OpCode::LoopEnd)
        &&& (ops[key as int] == OpCode::LoopEnd ==> other < key && ops[other as int]
            == OpCode::LoopBegin)
        &&& (ops[key as int] == OpCode::LoopBegin || ops[key as int] == OpCode::LoopEnd)
    } by {
        lemma_jump_map_linked(ops, key);
        let other = jump_map(ops)[key];
        lemma_jump_map_entry(ops, other as int, key as int);
    }
}

/// In a balanced sequence every bracket has its partner: translation succeeds
/// and the keys of the jump map are exactly the bracket positions.
pub proof fn lemma_balanced_keys(ops: Seq<OpCode>)
    requires
        balanced(ops),
        ops.len() <= usize::MAX,
    ensures
        never_negative(ops),
        forall|key: usize| #[trigger]
            jump_map(ops).contains_key(key) <==> key < ops.len() && (ops[key as int]
                == OpCode::LoopBegin || ops[key as int] == OpCode::LoopEnd),
{
    lemma_jump_map_involution(ops);
    assert forall|key: usize|
        key < ops.len() && (ops[key as int] == OpCode::LoopBegin || ops[key as int]
            == OpCode::LoopEnd) implies #[trigger] jump_map(ops).contains_key(key) by {
        let at = key as int;
        if ops[at] == OpCode::LoopBegin {
            assert(depth(ops, at) >= 0);
            assert(depth(ops, at + 1) == depth(ops, at) + 1);
            let close = lemma_find_close(ops, at, at + 1, ops.len() as int);
            lemma_jump_map_entry(ops, at, close);
        } else {
            assert(depth(ops, at + 1) >= 0);
            let open = lemma_find_open(ops, at, at);
            lemma_jump_map_entry(ops, at, open);
        }
    }
}

/// At most one position is the first stray closing bracket.
pub proof fn lemma_stray_close_unique(ops: Seq<OpCode>, p: int, q: int)
    requires
        stray_close(ops, p),
        stray_close(ops, q),
    ensures
        p == q,
{
    if p < q {
        assert(depth(ops, p + 1) >= 0);
    }
    if q < p {
        assert(depth(ops, q + 1) >= 0);
    }
}

/// The position that translation reports holds a closing bracket, it is
/// reached at depth 0, it has no partner, and every closing bracket before it
/// has one.
pub proof fn lemma_stray_close_unmatched(ops: Seq<OpCode>, p: int)
    requires
        stray_close(ops, p),
    ensures
        ops[p] == OpCode::LoopEnd,
        depth(ops, p) == 0,
        !has_partner(ops, p),
        !never_negative(ops),
        forall|q: int| 0 <= q < p && ops[q] == OpCode::LoopEnd ==> #[trigger] has_partner(ops, q),
{
    assert(depth(ops, p) >= 0);
    assert(depth(ops, p + 1) == depth(ops, p) + weight(ops[p]));
    assert forall|j: int| !linked(ops, p, j) by {
        if encloses(ops, j, p) {
            assert(depth(ops, j) >= 0);
        }
    }
    assert forall|q: int| 0 <= q < p && ops[q] == OpCode::LoopEnd implies #[trigger] has_partner(
        ops,
        q,
    ) by {
        assert(depth(ops, q + 1) >= 0);
        let open = lemma_find_open(ops, q, q);
        assert(linked(ops, q, open));
    }
}

/// No prefix up to `upto` is negative if every closing bracket before `last`
/// has a partner.
proof fn lemma_partnered_prefix(ops: Seq<OpCode>, last: int, upto: int)
    requires
        0 <= upto <= last <= ops.len(),
        forall|q: int| 0 <= q < last && ops[q] == OpCode::LoopEnd ==> #[trigger] has_partner(ops, q),
    ensures
        depth(ops, upto) >= 0,
    decreases upto,
{
    if upto > 0 {
        lemma_partnered_prefix(ops, last, upto - 1);
        if depth(ops, upto) < 0 {
            let q = upto - 1;
            assert(ops[q] == OpCode::LoopEnd);
            assert(has_partner(ops, q));
            let open = choose|j: int| linked(ops, q, j);
            assert(encloses(ops, open, q));
            lemma_partnered_prefix(ops, last, open);
        }
    }
}

/// A closing bracket without a partner, whose earlier closing brackets all
/// have one, is the position at which translation fails.
pub proof fn lemma_unmatched_close_is_stray(ops: Seq<OpCode>, p: int)
    requires
        0 <= p < ops.len(),
        ops[p] == OpCode::LoopEnd,
        !has_partner(ops, p),
        forall|q: int| 0 <= q < p && ops[q] == OpCode::LoopEnd ==> #[trigger] has_partner(ops, q),
    ensures
        stray_close(ops, p),
        !never_negative(ops),
{
    assert forall|k: int| 0 <= k <= p implies #[trigger] depth(ops, k) >= 0 by {
        lemma_partnered_prefix(ops, p, k);
    }
    if depth(ops, p + 1) >= 0 {
        let open = lemma_find_open(ops, p, p);
        assert(linked(ops, p, open));
    }
}

/// What two sources spell one after the other is what the first spells
/// followed by what the second spells.
pub proof fn lemma_commands_concat(a: Seq<u8>, b: Seq<u8>)
    ensures
        commands(a + b) == commands(a) + commands(b),
    decreases b.len(),
{
    if b.len() == 0 {
        assert(a + b =~= a);
        assert(commands(a) + commands(b) =~= commands(a));
    } else {
        assert((a + b).drop_last() =~= a + b.drop_last());
        lemma_commands_concat(a, b.drop_last());
        match command(b.last()) {
            Some(op) => {
                assert(commands(a) + commands(b.drop_last()).push(op) =~= (commands(a) + commands(
                    b.drop_last(),
                )).push(op));
            },
            None => {},
        }
    }
}

/// A comment byte put anywhere into a source changes nothing in what the
/// source spells, so the operations, their positions, the jump map and a
/// reported error position stay the same.
pub proof fn lemma_comment_ignored(code: Seq<u8>, at: int, byte: u8)
    requires
        0 <= at <= code.len(),
        command(byte) is None,
    ensures
        commands(code.insert(at, byte)) == commands(code),
        jump_map(commands(code.insert(at, byte))) == jump_map(commands(code)),
{
    let head = code.take(at);
    let tail = code.skip(at);
    let note = seq![byte];
    assert(code.insert(at, byte) =~= head + note + tail);
    assert(code =~= head + tail);
    lemma_commands_concat(head + note, tail);
    lemma_commands_concat(head, note);
    lemma_commands_concat(head, tail);
    assert(commands(note.drop_last()) =~= Seq::<OpCode>::empty());
    assert(commands(note) =~= Seq::<OpCode>::empty());
    assert(commands(head) + commands(note) =~= commands(head));
}

/// A source whose brackets are balanced is translated, and its jump map is an
/// involution on exactly the bracket positions.
pub proof fn lemma_balanced_translation(code: Seq<u8>)
    requires
        balanced(commands(code)),
        code.len() <= usize::MAX,
    ensures
        never_negative(commands(code)),
        forall|key: usize| #[trigger]
            jump_map(commands(code)).contains_key(key) <==> key < commands(code).len() && (
            commands(code)[key as int] == OpCode::LoopBegin || commands(code)[key as int]
                == OpCode::LoopEnd),
        forall|key: usize| #[trigger]
            jump_map(commands(code)).contains_key(key) ==> {
                &&& jump_map(commands(code)).contains_key(jump_map(commands(code))[key])
                &&& jump_map(commands(code))[jump_map(commands(code))[key]] == key
            },
{
    lemma_commands_len(code);
    lemma_balanced_keys(commands(code));
    lemma_jump_map_involution(commands(code));
}

} // verus!
