//! The watch-loop model: a reactor is driven by an unbounded sequence of
//! change notifications; reading the new value may fail for any single
//! notification, and a failed read is skipped without disturbing the rest.

use vstd::prelude::*;
use crate::listener::{plan_for, ConfigsView, PlanView, PowerProfileListener, ReactionPlan};

verus! {

/// The reactions taken over a sequence of delivered events, in order: each
/// successfully read value contributes its reaction, each failed read
/// (`None`) contributes nothing.
pub open spec fn plans_of(c: ConfigsView, evs: Seq<Option<Seq<char>>>) -> Seq<PlanView>
    decreases evs.len(),
{
    if evs.len() == 0 {
        Seq::<PlanView>::empty()
    } else {
        match evs[0] {
            Some(v) => seq![plan_for(c, v)] + plans_of(c, evs.drop_first()),
            None => plans_of(c, evs.drop_first()),
        }
    }
}

/// Processing a sequence of events splits over concatenation.
pub proof fn lemma_plans_of_concat(c: ConfigsView, a: Seq<Option<Seq<char>>>, b: Seq<
    Option<Seq<char>>,
>)
    ensures
        plans_of(c, a + b) == plans_of(c, a) + plans_of(c, b),
    decreases a.len(),
{
    if a.len() == 0 {
        assert(a + b =~= b);
        assert(plans_of(c, a) + plans_of(c, b) =~= plans_of(c, b));
    } else {
        assert((a + b)[0] == a[0]);
        assert((a + b).drop_first() =~= a.drop_first() + b);
        lemma_plans_of_concat(c, a.drop_first(), b);
        match a[0] {
            Some(v) => {
                assert(plans_of(c, a + b) =~= plans_of(c, a) + plans_of(c, b));
            },
            None => {
                assert(plans_of(c, a + b) =~= plans_of(c, a) + plans_of(c, b));
            },
        }
    }
}

/// Fault isolation: a read failure at any point of the event sequence
/// leaves the reactions to every other event exactly as they would have
/// been without it — in particular, a failure on one event never prevents
/// the processing of the next.
pub proof fn lemma_read_failure_isolated(
    c: ConfigsView,
    pre: Seq<Option<Seq<char>>>,
    post: Seq<Option<Seq<char>>>,
)
    ensures
        plans_of(c, pre + seq![Option::<Seq<char>>::None] + post) == plans_of(c, pre + post),
{
    let failure = seq![Option::<Seq<char>>::None];
    lemma_plans_of_concat(c, pre, failure + post);
    lemma_plans_of_concat(c, failure, post);
    lemma_plans_of_concat(c, pre, post);
    assert(pre + failure + post =~= pre + (failure + post));
    assert(failure[0] is None);
    assert(failure.drop_first() =~= Seq::<Option<Seq<char>>>::empty());
    assert(plans_of(c, Seq::<Option<Seq<char>>>::empty()) =~= Seq::<PlanView>::empty());
    assert(plans_of(c, failure) =~= Seq::<PlanView>::empty());
    assert(plans_of(c, pre + failure + post) =~= plans_of(c, pre + post));
}

/// Idempotent reaction: a change event delivered twice in a row yields the
/// same reaction twice — the decision reads only the (unchanged)
/// configuration and the value, so nothing compounds.
pub proof fn lemma_duplicate_event_idempotent(
    c: ConfigsView,
    evs: Seq<Option<Seq<char>>>,
    v: Seq<char>,
)
    ensures
        plans_of(c, evs + seq![Some(v), Some(v)]) == plans_of(c, evs) + seq![
            plan_for(c, v),
            plan_for(c, v),
        ],
{
    let twice = seq![Some(v), Some(v)];
    lemma_plans_of_concat(c, evs, twice);
    assert(twice[0] == Some(v));
    assert(twice.drop_first() =~= seq![Some(v)]);
    assert(twice.drop_first()[0] == Some(v));
    assert(twice.drop_first().drop_first() =~= Seq::<Option<Seq<char>>>::empty());
    assert(plans_of(c, Seq::<Option<Seq<char>>>::empty()) =~= Seq::<PlanView>::empty());
    assert(plans_of(c, twice.drop_first()) =~= seq![plan_for(c, v)]);
    assert(plans_of(c, twice) =~= seq![plan_for(c, v), plan_for(c, v)]);
}

/// Process a finite sequence of delivered events exactly as the watch loop
/// does: skip the failed reads, decide a reaction for each read value.
pub fn process_events(l: &PowerProfileListener, events: &Vec<Option<String>>) -> (r: Vec<
    ReactionPlan,
>)
    ensures
        r.deep_view() == plans_of(l.configs_view(), events.deep_view()),
{
    let ghost edv = events.deep_view();
    let ghost c = l.configs_view();
    let mut r: Vec<ReactionPlan> = Vec::new();
    let mut i: usize = 0;
    proof {
        assert(edv.take(0) =~= Seq::<Option<Seq<char>>>::empty());
        assert(r.deep_view() =~~= plans_of(c, edv.take(0)));
    }
    while i < events.len()
        invariant
            i <= edv.len(),
            edv == events.deep_view(),
            edv.len() == events@.len(),
            c == l.configs_view(),
            r.deep_view() == plans_of(c, edv.take(i as int)),
        decreases edv.len() - i,
    {
        let ghost pre = r.deep_view();
        let ghost prev = r@;
        proof {
            assert(edv[i as int] == events@[i as int].deep_view());
            assert(edv.take(i + 1int) =~= edv.take(i as int) + seq![edv[i as int]]);
            lemma_plans_of_concat(c, edv.take(i as int), seq![edv[i as int]]);
            assert(seq![edv[i as int]].drop_first() =~= Seq::<Option<Seq<char>>>::empty());
            assert(plans_of(c, Seq::<Option<Seq<char>>>::empty()) =~= Seq::<PlanView>::empty());
        }
        match &events[i] {
            Some(value) => {
                r.push(l.plan_reaction(value.as_str()));
                proof {
                    assert(edv[i as int] == Some(value@));
                    assert(plans_of(c, seq![edv[i as int]]) =~= seq![plan_for(c, value@)]);
                    assert forall|p: int| 0 <= p < prev.len() implies #[trigger] r.deep_view()[p]
                        == pre[p] by {
                        assert(r@[p] == prev[p]);
                    }
                    assert(r.deep_view().len() == prev.len() + 1);
                    assert(r.deep_view()[prev.len() as int] == plan_for(c, value@));
                    assert(r.deep_view() =~~= plans_of(c, edv.take(i + 1int)));
                }
            },
            None => {
                proof {
                    assert(edv[i as int] is None);
                    assert(plans_of(c, seq![edv[i as int]]) =~= Seq::<PlanView>::empty());
                    assert(r.deep_view() =~~= plans_of(c, edv.take(i + 1int)));
                }
            },
        }
        i = i + 1;
    }
    proof {
        assert(edv.take(edv.len() as int) =~= edv);
    }
    r
}

} // verus!
