//! What holds of simplified actions: which shapes the two fusions leave
//! behind, and that simplifying again changes nothing.

use crate::actions::{ActionView, ArgumentView};
use crate::commands::{insert_text_view, insert_view, is_insert_view, ChainView};
use crate::generation::{
    flushed_insert, flushed_repeat, insert_fused, insert_scan, repeat_fused, repeat_scan,
    repeat_view, simplified,
};
use vstd::prelude::*;

verus! {

/// The action is a `repeat` with a count, as the simplifier writes it.
pub open spec fn is_counted_repeat(a: ActionView) -> bool {
    a.name == "repeat"@ && a.arguments.len() == 1 && a.arguments[0] is Int
}

/// No action of the sequence is a `repeat` with a count.
pub open spec fn has_no_counted_repeat(actions: Seq<ActionView>) -> bool {
    forall|k: int| 0 <= k < actions.len() ==> !is_counted_repeat(#[trigger] actions[k])
}

/// Every `insert` of the sequence inserts something, and no two inserts
/// stand side by side.
pub open spec fn inserts_are_fused(actions: Seq<ActionView>) -> bool {
    &&& forall|k: int|
        0 <= k < actions.len() && is_insert_view(#[trigger] actions[k]) ==> insert_text_view(
            actions[k],
        ).len() > 0
    &&& forall|k: int|
        0 <= k < actions.len() - 1 ==> !(is_insert_view(#[trigger] actions[k]) && is_insert_view(
            actions[k + 1],
        ))
}

/// No two equal actions stand side by side.
pub open spec fn has_no_equal_neighbours(actions: Seq<ActionView>) -> bool {
    forall|k: int| 0 <= k < actions.len() - 1 ==> #[trigger] actions[k] != actions[k + 1]
}

/// `insert` and `repeat` are different names.
proof fn lemma_names_differ()
    ensures
        "insert"@ != "repeat"@,
{
    reveal_strlit("insert");
    reveal_strlit("repeat");
    assert("insert"@[0] == 'i');
    assert("repeat"@[0] == 'r');
}

/// An `insert` is the insert of its text.
proof fn lemma_insert_is_its_view(a: ActionView)
    requires
        is_insert_view(a),
    ensures
        a == insert_view(insert_text_view(a)),
{
    assert(a.arguments =~= seq![ArgumentView::Text(insert_text_view(a))]);
}

/// What the scan for inserts has written out is fused, does not end with
/// an `insert`, and holds no counted `repeat` where the actions hold none.
proof fn lemma_insert_scan_shape(actions: Seq<ActionView>)
    ensures
        inserts_are_fused(insert_scan(actions).0),
        insert_scan(actions).0.len() > 0 ==> !is_insert_view(insert_scan(actions).0.last()),
        has_no_counted_repeat(actions) ==> has_no_counted_repeat(insert_scan(actions).0),
    decreases actions.len(),
{
    lemma_names_differ();
    if actions.len() > 0 {
        lemma_insert_scan_shape(actions.drop_last());
        let (done, pending) = insert_scan(actions.drop_last());
        let x = actions.last();
        if !is_insert_view(x) {
            let flushed = flushed_insert(done, pending);
            let now = flushed.push(x);
            assert(inserts_are_fused(flushed)) by {
                if pending.len() > 0 {
                    assert forall|k: int|
                        0 <= k < flushed.len() && is_insert_view(
                            #[trigger] flushed[k],
                        ) implies insert_text_view(flushed[k]).len() > 0 by {
                        if k < done.len() {
                            assert(flushed[k] == done[k]);
                        }
                    }
                    assert forall|k: int| 0 <= k < flushed.len() - 1 implies !(is_insert_view(
                        #[trigger] flushed[k],
                    ) && is_insert_view(flushed[k + 1])) by {
                        assert(flushed[k] == done[k]);
                        if k + 1 < done.len() {
                            assert(flushed[k + 1] == done[k + 1]);
                        }
                    }
                }
            }
            assert(inserts_are_fused(now)) by {
                assert forall|k: int|
                    0 <= k < now.len() && is_insert_view(#[trigger] now[k]) implies insert_text_view(
                    now[k],
                ).len() > 0 by {
                    if k < flushed.len() {
                        assert(now[k] == flushed[k]);
                    }
                }
                assert forall|k: int| 0 <= k < now.len() - 1 implies !(is_insert_view(
                    #[trigger] now[k],
                ) && is_insert_view(now[k + 1])) by {
                    assert(now[k] == flushed[k]);
                    if k + 1 < flushed.len() {
                        assert(now[k + 1] == flushed[k + 1]);
                    }
                }
            }
            if has_no_counted_repeat(actions) {
                assert(has_no_counted_repeat(actions.drop_last())) by {
                    assert forall|k: int| 0 <= k < actions.drop_last().len() implies !is_counted_repeat(
                        #[trigger] actions.drop_last()[k],
                    ) by {
                        assert(actions.drop_last()[k] == actions[k]);
                    }
                }
                assert forall|k: int| 0 <= k < now.len() implies !is_counted_repeat(
                    #[trigger] now[k],
                ) by {
                    if k < done.len() {
                        assert(now[k] == done[k]);
                    } else if k < flushed.len() {
                        assert(now[k] == insert_view(pending));
                    } else {
                        assert(now[k] == actions[actions.len() - 1]);
                    }
                }
            }
        } else {
            if has_no_counted_repeat(actions) {
                assert forall|k: int| 0 <= k < actions.drop_last().len() implies !is_counted_repeat(
                    #[trigger] actions.drop_last()[k],
                ) by {
                    assert(actions.drop_last()[k] == actions[k]);
                }
            }
        }
    }
}

/// Fusing the inserts leaves every `insert` with a text and no two inserts
/// side by side, and brings in no counted `repeat`.
pub proof fn lemma_insert_fused_shape(actions: Seq<ActionView>)
    ensures
        inserts_are_fused(insert_fused(actions)),
        has_no_counted_repeat(actions) ==> has_no_counted_repeat(insert_fused(actions)),
{
    lemma_names_differ();
    lemma_insert_scan_shape(actions);
    let (done, pending) = insert_scan(actions);
    let fused = insert_fused(actions);
    if pending.len() > 0 {
        assert forall|k: int|
            0 <= k < fused.len() && is_insert_view(#[trigger] fused[k]) implies insert_text_view(
            fused[k],
        ).len() > 0 by {
            if k < done.len() {
                assert(fused[k] == done[k]);
            }
        }
        assert forall|k: int| 0 <= k < fused.len() - 1 implies !(is_insert_view(
            #[trigger] fused[k],
        ) && is_insert_view(fused[k + 1])) by {
            assert(fused[k] == done[k]);
            if k + 1 < done.len() {
                assert(fused[k + 1] == done[k + 1]);
            }
        }
        if has_no_counted_repeat(actions) {
            assert forall|k: int| 0 <= k < fused.len() implies !is_counted_repeat(
                #[trigger] fused[k],
            ) by {
                if k < done.len() {
                    assert(fused[k] == done[k]);
                }
            }
        }
    }
}

/// Fusing the inserts changes nothing where they are fused already.
pub proof fn lemma_insert_fused_is_stable(actions: Seq<ActionView>)
    requires
        inserts_are_fused(actions),
    ensures
        insert_fused(actions) == actions,
        insert_scan(actions) == if actions.len() > 0 && is_insert_view(actions.last()) {
            (actions.drop_last(), insert_text_view(actions.last()))
        } else {
            (actions, Seq::<char>::empty())
        },
    decreases actions.len(),
{
    if actions.len() > 0 {
        let rest = actions.drop_last();
        assert(inserts_are_fused(rest)) by {
            assert forall|k: int|
                0 <= k < rest.len() && is_insert_view(#[trigger] rest[k]) implies insert_text_view(
                rest[k],
            ).len() > 0 by {
                assert(rest[k] == actions[k]);
            }
            assert forall|k: int| 0 <= k < rest.len() - 1 implies !(is_insert_view(
                #[trigger] rest[k],
            ) && is_insert_view(rest[k + 1])) by {
                assert(rest[k] == actions[k]);
                assert(rest[k + 1] == actions[k + 1]);
            }
        }
        lemma_insert_fused_is_stable(rest);
        let x = actions.last();
        if is_insert_view(x) {
            if rest.len() > 0 {
                assert(rest.last() == actions[actions.len() - 2]);
                assert(!(is_insert_view(actions[actions.len() - 2]) && is_insert_view(
                    actions[actions.len() - 2 + 1],
                )));
            }
            assert(insert_scan(rest) == (rest, Seq::<char>::empty()));
            assert(Seq::<char>::empty() + insert_text_view(x) =~= insert_text_view(x));
            lemma_insert_is_its_view(x);
            assert(insert_text_view(actions[actions.len() - 1]).len() > 0);
            assert(rest.push(x) =~= actions);
        } else {
            assert(flushed_insert(insert_scan(rest).0, insert_scan(rest).1) == rest);
            assert(rest.push(x) =~= actions);
        }
    } else {
        assert(insert_fused(actions) =~= actions);
    }
}

/// What the scan for repetitions has written out, where the actions hold
/// fused inserts and no counted `repeat`: it is fused, has no equal
/// neighbours, and ends with the action that may be repeated next.
proof fn lemma_repeat_scan_shape(actions: Seq<ActionView>)
    requires
        inserts_are_fused(actions),
        has_no_counted_repeat(actions),
    ensures
        inserts_are_fused(repeat_scan(actions).0),
        has_no_equal_neighbours(repeat_scan(actions).0),
        repeat_scan(actions).2 >= 0,
        actions.len() > 0 ==> repeat_scan(actions).0.len() > 0 && repeat_scan(actions).0.last()
            == actions.last() && repeat_scan(actions).1 == Some(actions.last()),
        actions.len() == 0 ==> repeat_scan(actions).0.len() == 0,
    decreases actions.len(),
{
    lemma_names_differ();
    if actions.len() > 0 {
        let rest = actions.drop_last();
        assert(inserts_are_fused(rest) && has_no_counted_repeat(rest)) by {
            assert forall|k: int|
                0 <= k < rest.len() && is_insert_view(#[trigger] rest[k]) implies insert_text_view(
                rest[k],
            ).len() > 0 by {
                assert(rest[k] == actions[k]);
            }
            assert forall|k: int| 0 <= k < rest.len() - 1 implies !(is_insert_view(
                #[trigger] rest[k],
            ) && is_insert_view(rest[k + 1])) by {
                assert(rest[k] == actions[k]);
                assert(rest[k + 1] == actions[k + 1]);
            }
            assert forall|k: int| 0 <= k < rest.len() implies !is_counted_repeat(
                #[trigger] rest[k],
            ) by {
                assert(rest[k] == actions[k]);
            }
        }
        lemma_repeat_scan_shape(rest);
        let (done, last, count) = repeat_scan(rest);
        let x = actions.last();
        assert(!is_counted_repeat(actions[actions.len() - 1]));
        if !(last == Some(x) && count < i32::MAX) {
            let flushed = flushed_repeat(done, count);
            let now = flushed.push(x);
            if rest.len() > 0 {
                assert(done.last() == rest.last());
                assert(rest.last() == actions[actions.len() - 2]);
                assert(!is_counted_repeat(actions[actions.len() - 2]));
                assert(!(is_insert_view(actions[actions.len() - 2]) && is_insert_view(
                    actions[actions.len() - 2 + 1],
                )));
            }
            assert(is_counted_repeat(repeat_view(count)));
            assert(!is_insert_view(repeat_view(count)));
            assert forall|k: int|
                0 <= k < now.len() && is_insert_view(#[trigger] now[k]) implies insert_text_view(
                now[k],
            ).len() > 0 by {
                if k < done.len() {
                    assert(now[k] == done[k]);
                } else if k < flushed.len() {
                    assert(now[k] == repeat_view(count));
                } else {
                    assert(now[k] == actions[actions.len() - 1]);
                }
            }
            assert forall|k: int| 0 <= k < now.len() - 1 implies !(is_insert_view(
                #[trigger] now[k],
            ) && is_insert_view(now[k + 1])) && now[k] != now[k + 1] by {
                if k + 1 < done.len() {
                    assert(now[k] == done[k]);
                    assert(now[k + 1] == done[k + 1]);
                } else if k + 1 < flushed.len() {
                    assert(now[k] == done.last());
                    assert(now[k + 1] == repeat_view(count));
                } else if count > 0 {
                    assert(now[k] == repeat_view(count));
                    assert(now[k + 1] == x);
                } else {
                    assert(now[k] == done.last());
                    assert(now[k + 1] == x);
                    assert(last == Some(done.last()));
                }
            }
        }
    }
}

/// Fusing the repetitions of actions with fused inserts and without a
/// counted `repeat` leaves the inserts fused and no two equal actions side
/// by side.
pub proof fn lemma_repeat_fused_shape(actions: Seq<ActionView>)
    requires
        inserts_are_fused(actions),
        has_no_counted_repeat(actions),
    ensures
        inserts_are_fused(repeat_fused(actions)),
        has_no_equal_neighbours(repeat_fused(actions)),
{
    lemma_names_differ();
    lemma_repeat_scan_shape(actions);
    let (done, last, count) = repeat_scan(actions);
    let fused = repeat_fused(actions);
    if count > 0 {
        assert(is_counted_repeat(repeat_view(count)));
        assert(!is_insert_view(repeat_view(count)));
        assert(done.last() == actions[actions.len() - 1]);
        assert forall|k: int|
            0 <= k < fused.len() && is_insert_view(#[trigger] fused[k]) implies insert_text_view(
            fused[k],
        ).len() > 0 by {
            if k < done.len() {
                assert(fused[k] == done[k]);
            }
        }
        assert forall|k: int| 0 <= k < fused.len() - 1 implies !(is_insert_view(
            #[trigger] fused[k],
        ) && is_insert_view(fused[k + 1])) && fused[k] != fused[k + 1] by {
            assert(fused[k] == done[k]);
            if k + 1 < done.len() {
                assert(fused[k + 1] == done[k + 1]);
            } else {
                assert(fused[k + 1] == repeat_view(count));
            }
        }
    }
}

/// Fusing the repetitions changes nothing where no two equal actions stand
/// side by side.
pub proof fn lemma_repeat_fused_is_stable(actions: Seq<ActionView>)
    requires
        has_no_equal_neighbours(actions),
    ensures
        repeat_fused(actions) == actions,
        repeat_scan(actions) == (
            actions,
            if actions.len() > 0 {
                Some(actions.last())
            } else {
                None
            },
            0int,
        ),
    decreases actions.len(),
{
    if actions.len() > 0 {
        let rest = actions.drop_last();
        assert(has_no_equal_neighbours(rest)) by {
            assert forall|k: int| 0 <= k < rest.len() - 1 implies #[trigger] rest[k] != rest[k
                + 1] by {
                assert(rest[k] == actions[k]);
                assert(rest[k + 1] == actions[k + 1]);
            }
        }
        lemma_repeat_fused_is_stable(rest);
        if rest.len() > 0 {
            assert(rest.last() == actions[actions.len() - 2]);
            assert(actions[actions.len() - 2] != actions[actions.len() - 2 + 1]);
        }
        assert(rest.push(actions.last()) =~= actions);
    } else {
        assert(repeat_scan(actions).0 =~= actions);
    }
}

/// Simplified actions have fused inserts and, where the actions held no
/// counted `repeat`, no two equal actions side by side.
pub proof fn lemma_simplified_shape(actions: Seq<ActionView>)
    requires
        has_no_counted_repeat(actions),
    ensures
        inserts_are_fused(simplified(actions)),
        has_no_equal_neighbours(simplified(actions)),
{
    lemma_insert_fused_shape(actions);
    lemma_repeat_fused_shape(insert_fused(actions));
}

/// The actions are settled: their inserts are fused, and no two equal
/// actions stand side by side.
pub open spec fn is_settled(actions: Seq<ActionView>) -> bool {
    inserts_are_fused(actions) && has_no_equal_neighbours(actions)
}

/// Settled actions simplify to themselves.
pub proof fn lemma_settled_is_simplified(actions: Seq<ActionView>)
    requires
        is_settled(actions),
    ensures
        simplified(actions) == actions,
{
    lemma_insert_fused_is_stable(actions);
    lemma_repeat_fused_is_stable(actions);
}

/// Simplifying a chain twice gives what simplifying it once gives, with
/// the same name, start and size, for every chain whose simplified actions
/// are settled.
pub proof fn lemma_simplify_settles(chain: ChainView)
    requires
        is_settled(simplified(chain.command.actions)),
    ensures
        crate::generation::simplified_chain(crate::generation::simplified_chain(chain))
            == crate::generation::simplified_chain(chain),
{
    lemma_settled_is_simplified(simplified(chain.command.actions));
}

/// The simplified actions are settled for actions that hold no `repeat`
/// with a count of their own, so that simplifying them again changes
/// nothing.
pub proof fn lemma_simplify_is_idempotent(actions: Seq<ActionView>)
    requires
        has_no_counted_repeat(actions),
    ensures
        is_settled(simplified(actions)),
        simplified(simplified(actions)) == simplified(actions),
{
    lemma_simplified_shape(actions);
    lemma_settled_is_simplified(simplified(actions));
}

} // verus!
