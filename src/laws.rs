use vstd::prelude::*;

use crate::segment::{lemma_pow10_monotone, pow10, suffix_window, window_start};
use crate::summary::{lemma_extrema_attained, min_int, seq_last, summarize, MAX_OBSERVATIONS};
use crate::manager::{lemma_slot_of, no_duplicates, slot_of};
use crate::worker::{append_effect, valid_batch_size};

verus! {

/// The stream after a worker in state `vals` has handled the appends of
/// `batches`, in order.
pub open spec fn apply_batches(vals: Seq<i32>, batches: Seq<Seq<i32>>) -> Seq<i32>
    decreases batches.len(),
{
    if batches.len() == 0 {
        vals
    } else {
        append_effect(apply_batches(vals, batches.drop_last()), batches.last()).0
    }
}

/// Every batch has an acceptable size and the store takes them all.
pub open spec fn all_accepted(vals: Seq<i32>, batches: Seq<Seq<i32>>) -> bool {
    &&& forall|i: int| 0 <= i < batches.len() ==> valid_batch_size(#[trigger] batches[i].len())
    &&& vals.len() + batches.flatten_alt().len() <= MAX_OBSERVATIONS
}

/// After appending, the window of the last `10^k` observations holds
/// `min(len, 10^k)` of them.
pub proof fn lemma_window_count(vals: Seq<i32>, k: nat)
    ensures
        summarize(suffix_window(vals, k)).count == min_int(vals.len() as int, pow10(k) as int),
{
}

/// The stats of a non-empty window are its plain reductions: `min` and `max`
/// are the least and greatest observation in it, and `last` is the most
/// recent observation of the stream.
pub proof fn lemma_window_reductions(vals: Seq<i32>, k: nat)
    requires
        vals.len() > 0,
    ensures
        ({
            let t = suffix_window(vals, k);
            let s = summarize(t);
            &&& t.len() > 0
            &&& forall|i: int| 0 <= i < t.len() ==> s.min <= #[trigger] t[i] <= s.max
            &&& exists|i: int| 0 <= i < t.len() && t[i] == s.min
            &&& exists|i: int| 0 <= i < t.len() && t[i] == s.max
            &&& s.last == vals.last()
        }),
{
    let t = suffix_window(vals, k);
    lemma_pow10_monotone(0, k);
    assert(window_start(vals.len(), k) < vals.len());
    lemma_extrema_attained(t);
    assert(t.last() == vals.last());
    assert(seq_last(t) == vals.last());
}

/// Appending accepted batches one after another extends the stream by their
/// concatenation.
pub proof fn lemma_apply_batches(vals: Seq<i32>, batches: Seq<Seq<i32>>)
    requires
        all_accepted(vals, batches),
    ensures
        apply_batches(vals, batches) == vals + batches.flatten_alt(),
    decreases batches.len(),
{
    if batches.len() > 0 {
        let init = batches.drop_last();
        assert forall|i: int| 0 <= i < init.len() implies valid_batch_size(#[trigger] init[i].len()) by {
            assert(init[i] == batches[i]);
        }
        lemma_apply_batches(vals, init);
        assert(valid_batch_size(batches[batches.len() - 1].len()));
        assert(vals + init.flatten_alt() + batches.last() =~= vals + batches.flatten_alt());
    }
}

/// Where the batches fall does not matter: two runs of accepted appends that
/// carry the same observations leave the same stream, and so answer every
/// stats query alike.
pub proof fn lemma_batch_boundaries(
    vals: Seq<i32>,
    batches1: Seq<Seq<i32>>,
    batches2: Seq<Seq<i32>>,
    k: nat,
)
    requires
        all_accepted(vals, batches1),
        all_accepted(vals, batches2),
        batches1.flatten_alt() == batches2.flatten_alt(),
    ensures
        apply_batches(vals, batches1) == apply_batches(vals, batches2),
        summarize(suffix_window(apply_batches(vals, batches1), k)) == summarize(
            suffix_window(apply_batches(vals, batches2), k),
        ),
{
    lemma_apply_batches(vals, batches1);
    lemma_apply_batches(vals, batches2);
}

/// Registered names and the stream of each worker slot after the appends in
/// `cmds` (symbol, batch) were routed in order: a known symbol's batch goes to
/// its slot, a new symbol gets the next slot.
pub open spec fn fabric_after(cmds: Seq<(Seq<char>, Seq<i32>)>) -> (Seq<Seq<char>>, Seq<Seq<i32>>)
    decreases cmds.len(),
{
    if cmds.len() == 0 {
        (Seq::empty(), Seq::empty())
    } else {
        let prev = fabric_after(cmds.drop_last());
        let names = prev.0;
        let streams = prev.1;
        let s = cmds.last().0;
        let batch = cmds.last().1;
        let i = slot_of(names, s);
        if i >= 0 {
            (names, streams.update(i, append_effect(streams[i], batch).0))
        } else {
            (names.push(s), streams.push(append_effect(Seq::empty(), batch).0))
        }
    }
}

/// The commands of `cmds` addressed to `a`, in order.
pub open spec fn commands_for(cmds: Seq<(Seq<char>, Seq<i32>)>, a: Seq<char>) -> Seq<(Seq<char>, Seq<i32>)> {
    cmds.filter(|c: (Seq<char>, Seq<i32>)| c.0 == a)
}

/// Per-symbol isolation: however the commands of several symbols interleave,
/// the stream of a symbol's worker is what its own commands, in their order,
/// make of an empty stream; a symbol has a worker exactly when it got a
/// command, and no two symbols share one.
pub proof fn lemma_symbol_isolation(cmds: Seq<(Seq<char>, Seq<i32>)>, a: Seq<char>)
    ensures
        ({
            let (names, streams) = fabric_after(cmds);
            let own = commands_for(cmds, a);
            &&& names.len() == streams.len()
            &&& no_duplicates(names)
            &&& names.contains(a) == (own.len() > 0)
            &&& names.contains(a) ==> streams[slot_of(names, a)] == fabric_after(own).1[0]
        }),
    decreases cmds.len(),
{
    if cmds.len() > 0 {
        let init = cmds.drop_last();
        lemma_symbol_isolation(init, a);
        let (names0, streams0) = fabric_after(init);
        let (names, streams) = fabric_after(cmds);
        let s = cmds.last().0;
        let own0 = commands_for(init, a);
        let own = commands_for(cmds, a);
        lemma_slot_of(names0, s);
        lemma_slot_of(names0, a);
        lemma_slot_of(names, a);
        if slot_of(names0, s) < 0 {
            assert forall|i: int, j: int| 0 <= i < names.len() && 0 <= j < names.len() && i != j implies names[i] != names[j] by {
                if i == names0.len() {
                    assert(names0[j] == names[j]);
                } else if j == names0.len() {
                    assert(names0[i] == names[i]);
                }
            }
            assert(names.last() == s);
        }
        reveal(Seq::filter);
        assert(cmds.filter(|c: (Seq<char>, Seq<i32>)| c.0 == a) == if cmds.last().0 == a {
            init.filter(|c: (Seq<char>, Seq<i32>)| c.0 == a).push(cmds.last())
        } else {
            init.filter(|c: (Seq<char>, Seq<i32>)| c.0 == a)
        });
        if s == a {
            assert(own == own0.push(cmds.last()));
            assert(own.drop_last() == own0);
            lemma_symbol_isolation(own0, a);
            if own0.len() > 0 {
                lemma_own_single_slot(own0, a);
                lemma_slot_of(fabric_after(own0).0, a);
            }
            lemma_own_single_slot(own, a);
        } else {
            assert(own == own0);
            if names0.contains(a) {
                assert(names.contains(a)) by {
                    assert(names[slot_of(names0, a)] == a);
                }
            }
            if names.contains(a) {
                assert(names0.contains(a)) by {
                    let i = slot_of(names, a);
                    assert(names0[i] == a);
                }
            }
        }
    }
}

/// When every command is for `a`, the fabric holds `a` alone, in slot 0.
proof fn lemma_own_single_slot(cmds: Seq<(Seq<char>, Seq<i32>)>, a: Seq<char>)
    requires
        forall|i: int| 0 <= i < cmds.len() ==> (#[trigger] cmds[i]).0 == a,
        cmds.len() > 0,
    ensures
        fabric_after(cmds).0 == seq![a],
        fabric_after(cmds).1.len() == 1,
        fabric_after(cmds).1[0] == append_effect(
            if cmds.len() == 1 { Seq::empty() } else { fabric_after(cmds.drop_last()).1[0] },
            cmds.last().1,
        ).0,
    decreases cmds.len(),
{
    let init = cmds.drop_last();
    assert(cmds.last().0 == a) by {
        assert(cmds[cmds.len() - 1].0 == a);
    }
    if cmds.len() > 1 {
        assert forall|i: int| 0 <= i < init.len() implies (#[trigger] init[i]).0 == a by {
            assert(init[i] == cmds[i]);
        }
        lemma_own_single_slot(init, a);
        assert(seq![a].last() == a);
    } else {
        assert(init.len() == 0);
        assert(fabric_after(init) == (Seq::<Seq<char>>::empty(), Seq::<Seq<i32>>::empty()));
        assert(slot_of(Seq::<Seq<char>>::empty(), a) == -1);
        assert(seq![a] =~= Seq::<Seq<char>>::empty().push(a));
    }
}

/// The batches carried by `cmds`, in order.
pub open spec fn batches_of(cmds: Seq<(Seq<char>, Seq<i32>)>) -> Seq<Seq<i32>> {
    cmds.map_values(|c: (Seq<char>, Seq<i32>)| c.1)
}

proof fn lemma_own_stream(cmds: Seq<(Seq<char>, Seq<i32>)>, a: Seq<char>)
    requires
        forall|i: int| 0 <= i < cmds.len() ==> (#[trigger] cmds[i]).0 == a,
        cmds.len() > 0,
    ensures
        fabric_after(cmds).1[0] == apply_batches(Seq::empty(), batches_of(cmds)),
    decreases cmds.len(),
{
    let init = cmds.drop_last();
    lemma_own_single_slot(cmds, a);
    assert(batches_of(cmds).drop_last() =~= batches_of(init));
    assert(batches_of(cmds).last() == cmds.last().1);
    assert(batches_of(cmds).len() == cmds.len());
    if cmds.len() > 1 {
        assert forall|i: int| 0 <= i < init.len() implies (#[trigger] init[i]).0 == a by {
            assert(init[i] == cmds[i]);
        }
        lemma_own_stream(init, a);
    } else {
        assert(batches_of(init) =~= Seq::<Seq<i32>>::empty());
        assert(apply_batches(Seq::empty(), batches_of(init)) == Seq::<i32>::empty());
    }
    assert(apply_batches(Seq::empty(), batches_of(cmds)) == append_effect(
        apply_batches(Seq::empty(), batches_of(init)),
        cmds.last().1,
    ).0);
}

/// Whatever the interleaving with other symbols, once every batch sent for
/// `a` is accepted, `a`'s worker holds exactly those batches, concatenated in
/// the order they were sent.
pub proof fn lemma_symbol_stream(cmds: Seq<(Seq<char>, Seq<i32>)>, a: Seq<char>)
    requires
        commands_for(cmds, a).len() > 0,
        all_accepted(Seq::empty(), batches_of(commands_for(cmds, a))),
    ensures
        ({
            let (names, streams) = fabric_after(cmds);
            &&& names.contains(a)
            &&& streams[slot_of(names, a)] == batches_of(commands_for(cmds, a)).flatten_alt()
        }),
{
    let own = commands_for(cmds, a);
    lemma_symbol_isolation(cmds, a);
    broadcast use vstd::seq_lib::group_filter_ensures;
    assert forall|i: int| 0 <= i < own.len() implies (#[trigger] own[i]).0 == a by {}
    lemma_own_stream(own, a);
    lemma_apply_batches(Seq::empty(), batches_of(own));
    assert(Seq::<i32>::empty() + batches_of(own).flatten_alt() =~= batches_of(own).flatten_alt());
}

} // verus!
