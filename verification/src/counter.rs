//! The counter as a value: what each command does to it, and what a run of
//! commands leaves behind.
//!
//! The counter is a signed 32-bit integer that wraps around where it passes
//! either end of its range. [`crate::store::CounterStore`] is the counter
//! that connections share; this module says what its value is after the
//! commands that reached it, in the order in which they took effect.

use crate::protocol::Command;
use vstd::prelude::*;

verus! {

/// The 32-bit integer that `x` wraps around to: the one that differs from `x`
/// by a multiple of 2^32.
pub open spec fn wrap(x: int) -> i32 {
    let r = x % 0x1_0000_0000;
    if r > i32::MAX {
        (r - 0x1_0000_0000) as i32
    } else {
        r as i32
    }
}

/// What `cmd` adds to the counter.
pub open spec fn effect(cmd: Command) -> int {
    match cmd {
        Command::Increment(amount) => amount as int,
        Command::Decrement(amount) => -(amount as int),
        Command::Ping => 0,
        Command::Fetch => 0,
    }
}

/// The counter after `cmd`, where it held `counter` before.
pub open spec fn counter_after(counter: i32, cmd: Command) -> i32 {
    wrap(counter + effect(cmd))
}

/// The counter after the commands of `cmds` in turn, where it held `counter`
/// before.
pub open spec fn counter_after_all(counter: i32, cmds: Seq<Command>) -> i32
    decreases cmds.len(),
{
    if cmds.len() == 0 {
        counter
    } else {
        counter_after(counter_after_all(counter, cmds.drop_last()), cmds.last())
    }
}

/// What the commands of `cmds` add to the counter, all together.
pub open spec fn total_effect(cmds: Seq<Command>) -> int
    decreases cmds.len(),
{
    if cmds.len() == 0 {
        0
    } else {
        total_effect(cmds.drop_last()) + effect(cmds.last())
    }
}

/// Wrapping around once is as good as wrapping around at every step.
pub proof fn lemma_wrap_add(x: int, y: int)
    ensures
        wrap(wrap(x) + y) == wrap(x + y),
        i32::MIN <= x <= i32::MAX ==> wrap(x) == x,
{
}

/// The counter after `cmd`.
pub fn apply(counter: i32, cmd: Command) -> (next: i32)
    ensures
        next == counter_after(counter, cmd),
{
    match cmd {
        Command::Increment(amount) => counter.wrapping_add(amount),
        Command::Decrement(amount) => counter.wrapping_sub(amount),
        Command::Ping => counter,
        Command::Fetch => counter,
    }
}

/// The counter after the commands of `cmds` in turn.
pub fn apply_all(counter: i32, cmds: &[Command]) -> (last: i32)
    ensures
        last == counter_after_all(counter, cmds@),
{
    let mut value = counter;
    let mut i: usize = 0;
    while i < cmds.len()
        invariant
            i <= cmds.len(),
            value == counter_after_all(counter, cmds@.take(i as int)),
        decreases cmds.len() - i,
    {
        value = apply(value, cmds[i]);
        i += 1;
        assert(cmds@.take(i as int).drop_last() =~= cmds@.take(i - 1));
    }
    assert(cmds@.take(cmds.len() as int) =~= cmds@);
    value
}

/// No update is lost: after any run of commands the counter holds what it
/// held before plus everything that the commands add, wrapped around; and
/// exactly that sum where the sum fits 32 bits.
pub proof fn law_no_update_is_lost(counter: i32, cmds: Seq<Command>)
    ensures
        counter_after_all(counter, cmds) == wrap(counter + total_effect(cmds)),
        i32::MIN <= counter + total_effect(cmds) <= i32::MAX ==> counter_after_all(counter, cmds)
            == counter + total_effect(cmds),
    decreases cmds.len(),
{
    if cmds.len() > 0 {
        let before = cmds.drop_last();
        law_no_update_is_lost(counter, before);
        lemma_wrap_add(counter + total_effect(before), effect(cmds.last()));
    }
    lemma_wrap_add(counter + total_effect(cmds), 0);
}

/// Taking one command out of a run takes its effect out of the total.
proof fn lemma_total_effect_remove(cmds: Seq<Command>, i: int)
    requires
        0 <= i < cmds.len(),
    ensures
        total_effect(cmds) == total_effect(cmds.remove(i)) + effect(cmds[i]),
    decreases cmds.len(),
{
    if i == cmds.len() - 1 {
        assert(cmds.remove(i) =~= cmds.drop_last());
    } else {
        lemma_total_effect_remove(cmds.drop_last(), i);
        assert(cmds.remove(i).drop_last() =~= cmds.drop_last().remove(i));
        assert(cmds.remove(i).last() == cmds.last());
    }
}

/// Two runs of the same commands, in whatever order, add the same.
pub proof fn lemma_total_effect_of_permutation(a: Seq<Command>, b: Seq<Command>)
    requires
        a.to_multiset() == b.to_multiset(),
    ensures
        total_effect(a) == total_effect(b),
    decreases a.len(),
{
    broadcast use vstd::seq_lib::group_to_multiset_ensures;

    a.to_multiset_ensures();
    b.to_multiset_ensures();
    if a.len() == 0 {
        assert(b.len() == 0);
    } else {
        let x = a.last();
        assert(a.to_multiset().count(x) > 0) by {
            assert(a.contains(x));
        }
        assert(b.contains(x));
        let j = choose|j: int| 0 <= j < b.len() && b[j] == x;
        let i = a.len() - 1;
        assert(a.remove(i) =~= a.drop_last());
        assert(a.remove(i).to_multiset() =~= a.to_multiset().remove(x));
        assert(b.remove(j).to_multiset() =~= b.to_multiset().remove(x));
        lemma_total_effect_of_permutation(a.drop_last(), b.remove(j));
        lemma_total_effect_remove(b, j);
    }
}

/// The order in which commands take effect does not matter to the counter:
/// two runs of the same commands leave the same value behind.
pub proof fn law_order_does_not_matter(counter: i32, a: Seq<Command>, b: Seq<Command>)
    requires
        a.to_multiset() == b.to_multiset(),
    ensures
        counter_after_all(counter, a) == counter_after_all(counter, b),
{
    law_no_update_is_lost(counter, a);
    law_no_update_is_lost(counter, b);
    lemma_total_effect_of_permutation(a, b);
}

} // verus!
