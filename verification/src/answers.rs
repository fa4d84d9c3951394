//! What a client may conclude from its matchmakers' answers: how an answer binds
//! the ones that follow it, which answers are flagged, and which are not.
use crate::matchmaking::{
    ClientView, Coverage, MatchOutcome, MatchReply, MatchRequest, MatchViolations,
    ModelView, Policy, Row, registered_among,
};
use crate::ordered::MapKey;
use crate::records::Ballot;
use vstd::prelude::*;

verus! {

/// The watermark an answer reports, if it reports one.
pub open spec fn reported(outcome: MatchOutcome) -> Option<Ballot> {
    match outcome {
        MatchOutcome::Registered { history, gc_watermark } => Some(gc_watermark),
        MatchOutcome::Stale { highest } => None,
        MatchOutcome::BelowWatermark { watermark } => Some(watermark),
    }
}

/// One answer of a matchmaker, with the request it answers.
pub struct Heard {
    pub ballot: Ballot,
    pub hash: u64,
    pub outcome: MatchOutcome,
}

/// The model of a matchmaker after the first `k` of its answers.
pub open spec fn told(m: ModelView, answers: Seq<Heard>, k: int) -> ModelView
    decreases k,
{
    if k <= 0 {
        m
    } else {
        let last = answers[k - 1];
        told(m, answers, k - 1).after(last.ballot, last.hash, last.outcome)
    }
}

/// The answer at `k` is judged sound.
pub open spec fn sound(m: ModelView, answers: Seq<Heard>, k: int) -> bool {
    told(m, answers, k).violated(answers[k].ballot, answers[k].hash, answers[k].outcome)
        == MatchViolations::none()
}

/// After an answer that reports a watermark, that watermark is the one on
/// record; a stale refusal reports none and changes nothing.
pub proof fn law_reported_watermark_is_remembered(
    m: ModelView,
    ballot: Ballot,
    hash: u64,
    outcome: MatchOutcome,
)
    ensures
        match reported(outcome) {
            Some(watermark) => m.after(ballot, hash, outcome).watermark == watermark,
            None => m.after(ballot, hash, outcome) == m,
        },
{
}

/// Of two answers of one matchmaker that report watermarks, with nothing but
/// stale refusals between them, the later one is flagged if its watermark is
/// below the earlier one's.
pub proof fn law_lower_watermark_is_flagged(m: ModelView, answers: Seq<Heard>, i: int, j: int)
    requires
        0 <= i < j < answers.len(),
        reported(answers[i].outcome) is Some,
        reported(answers[j].outcome) is Some,
        forall|h: int| i < h < j ==> reported((#[trigger] answers[h]).outcome) is None,
        reported(answers[j].outcome)->0.rank() < reported(answers[i].outcome)->0.rank(),
    ensures
        ({
            let violations = told(m, answers, j).violated(
                answers[j].ballot,
                answers[j].hash,
                answers[j].outcome,
            );
            &&& answers[j].outcome is Registered ==> violations.regressed
            &&& answers[j].outcome is BelowWatermark ==> violations.floor
            &&& !sound(m, answers, j)
        }),
{
    lemma_watermark_stays(m, answers, i, j);
}

proof fn lemma_watermark_stays(m: ModelView, answers: Seq<Heard>, i: int, j: int)
    requires
        0 <= i < j <= answers.len(),
        reported(answers[i].outcome) is Some,
        forall|h: int| i < h < j ==> reported((#[trigger] answers[h]).outcome) is None,
    ensures
        told(m, answers, j).watermark == reported(answers[i].outcome)->0,
    decreases j,
{
    if j > i + 1 {
        lemma_watermark_stays(m, answers, i, j - 1);
        assert(reported(answers[j - 1].outcome) is None);
    }
}

/// Along answers that are all judged sound, the reported watermarks never go
/// down, however far apart they lie.
pub proof fn law_sound_watermarks_rise(m: ModelView, answers: Seq<Heard>, i: int, j: int)
    requires
        0 <= i < j < answers.len(),
        reported(answers[i].outcome) is Some,
        reported(answers[j].outcome) is Some,
        forall|h: int| i < h <= j ==> #[trigger] sound(m, answers, h),
    ensures
        reported(answers[i].outcome)->0.rank() <= reported(answers[j].outcome)->0.rank(),
{
    lemma_watermark_rises(m, answers, i, j);
    assert(sound(m, answers, j));
}

proof fn lemma_watermark_rises(m: ModelView, answers: Seq<Heard>, i: int, j: int)
    requires
        0 <= i < j < answers.len(),
        reported(answers[i].outcome) is Some,
        forall|h: int| i < h < j ==> #[trigger] sound(m, answers, h),
    ensures
        reported(answers[i].outcome)->0.rank() <= told(m, answers, j).watermark.rank(),
    decreases j,
{
    if j > i + 1 {
        lemma_watermark_rises(m, answers, i, j - 1);
        assert(sound(m, answers, j - 1));
    }
}

/// Which answers are flagged, and for what. A registration is flagged for a row
/// outside its window, for a watermark below the one on record, and for missing
/// a registration this client saw inside the window; a stale refusal for a
/// ballot below the request; a below-watermark refusal for a watermark not above
/// the request or below the one on record. Nothing else is flagged, and the
/// judge never looks at what a reply echoes.
pub proof fn law_flags_say_what_is_wrong(
    m: ModelView,
    ballot: Ballot,
    hash: u64,
    outcome: MatchOutcome,
)
    ensures
        ({
            let v = m.violated(ballot, hash, outcome);
            &&& !v.echo
            &&& match outcome {
                MatchOutcome::Registered { history, gc_watermark } => {
                    &&& v.window <==> exists|i: int|
                        0 <= i < history@.len() && ((#[trigger] history@[i]).ballot.rank()
                            >= ballot.rank() || history@[i].ballot.rank() < gc_watermark.rank())
                    &&& v.regressed <==> m.watermark.rank() > gc_watermark.rank()
                    &&& v.missing <==> exists|b: Ballot| #[trigger]
                        m.acked.contains_key(b) && gc_watermark.rank() <= b.rank()
                            && b.rank() < ballot.rank() && forall|i: int|
                            0 <= i < history@.len() ==> !(#[trigger] history@[i] == Row {
                                ballot: b,
                                hash: m.acked[b],
                            })
                    &&& !v.stale
                    &&& !v.floor
                },
                MatchOutcome::Stale { highest } => {
                    &&& v.stale <==> highest.rank() < ballot.rank()
                    &&& !v.window && !v.regressed && !v.missing && !v.twice && !v.grown && !v.floor
                },
                MatchOutcome::BelowWatermark { watermark } => {
                    &&& v.floor <==> watermark.rank() <= ballot.rank() || watermark.rank()
                        < m.watermark.rank()
                    &&& !v.window && !v.regressed && !v.missing && !v.twice && !v.grown && !v.stale
                },
            }
        }),
{
    if let MatchOutcome::Registered { history, gc_watermark } = outcome {
        let v = m.violated(ballot, hash, outcome);
        if exists|i: int|
            0 <= i < history@.len() && ((#[trigger] history@[i]).ballot.rank() >= ballot.rank()
                || history@[i].ballot.rank() < gc_watermark.rank()) {
            let i = choose|i: int|
                0 <= i < history@.len() && ((#[trigger] history@[i]).ballot.rank() >= ballot.rank()
                    || history@[i].ballot.rank() < gc_watermark.rank());
            assert(v.window);
        }
        if v.missing {
            let b = choose|b: Ballot| #[trigger]
                m.acked.contains_key(b) && gc_watermark.rank() <= b.rank() < ballot.rank()
                    && !history@.contains(Row { ballot: b, hash: m.acked[b] });
            assert(m.acked.contains_key(b));
            assert forall|i: int| 0 <= i < history@.len() implies !(#[trigger] history@[i] == Row {
                ballot: b,
                hash: m.acked[b],
            }) by {}
        }
    }
}

/// A registration seen once is expected in every later history whose window
/// holds it, with the bytes it was first registered with.
pub proof fn law_seen_registration_is_expected(
    m: ModelView,
    first: Heard,
    later: Heard,
    history: Seq<Row>,
)
    requires
        !m.acked.contains_key(first.ballot),
        first.outcome is Registered,
        later.outcome is Registered,
        later.outcome->history@ == history,
        later.outcome->gc_watermark.rank() <= first.ballot.rank() < later.ballot.rank(),
        !history.contains(Row { ballot: first.ballot, hash: first.hash }),
    ensures
        m.after(first.ballot, first.hash, first.outcome).violated(
            later.ballot,
            later.hash,
            later.outcome,
        ).missing,
{
    let after = m.after(first.ballot, first.hash, first.outcome);
    assert(after.acked.contains_key(first.ballot));
}

/// A ballot is registered under one configuration: the same ballot answered
/// again is flagged exactly if its bytes differ, and flagged for growth exactly
/// if it brings a row that the first answer did not.
pub proof fn law_ballot_is_registered_once(m: ModelView, first: Heard, later: Heard)
    requires
        !m.acked.contains_key(first.ballot),
        first.outcome is Registered,
        later.outcome is Registered,
        later.ballot == first.ballot,
    ensures
        !m.violated(first.ballot, first.hash, first.outcome).twice,
        !m.violated(first.ballot, first.hash, first.outcome).grown,
        ({
            let v = m.after(first.ballot, first.hash, first.outcome).violated(
                later.ballot,
                later.hash,
                later.outcome,
            );
            &&& v.twice <==> later.hash != first.hash
            &&& v.grown <==> exists|i: int|
                0 <= i < later.outcome->history@.len() && !first.outcome->history@.contains(
                    #[trigger] later.outcome->history@[i],
                )
        }),
{
}

/// What is on record of a registration outlives every later answer: neither its
/// bytes nor its first history is overwritten, and no answer but a registration
/// adds one.
pub proof fn law_record_outlives_answers(
    m: ModelView,
    ballot: Ballot,
    hash: u64,
    outcome: MatchOutcome,
    other: Ballot,
)
    ensures
        ({
            let after = m.after(ballot, hash, outcome);
            &&& after.acked.contains_key(other) <==> m.acked.contains_key(other) || (other == ballot
                && outcome is Registered)
            &&& m.acked.contains_key(other) ==> after.acked[other] == m.acked[other]
                && after.first_history.contains_key(other) == m.first_history.contains_key(other)
                && after.first_history[other] == m.first_history[other]
            &&& !m.acked.contains_key(ballot) && outcome is Registered ==> after.acked[ballot]
                == hash && after.first_history.contains_key(ballot) && after.first_history[ballot]
                == outcome->history@
        }),
{
    if outcome is Registered && !m.acked.contains_key(ballot) && m.acked.contains_key(other) {
        assert(other != ballot);
    }
}

/// A fresh matchmaker may answer anything: nothing was told before that its
/// first answer could contradict.
pub proof fn law_first_answer_contradicts_nothing(ballot: Ballot, hash: u64, outcome: MatchOutcome)
    ensures
        ({
            let v = ModelView::fresh().violated(ballot, hash, outcome);
            !v.regressed && !v.missing && !v.twice && !v.grown
        }),
{
}

/// Five draws in eight mint a fresh ballot; one each repeats, conflicts, and
/// goes back.
pub proof fn law_policies_share_the_draws(base: u64)
    requires
        base % 8 == 0,
        base <= u64::MAX - 7,
    ensures
        forall|k: u64|
            k < 5 ==> #[trigger] Policy::of_draw((base + k) as u64) == Policy::Fresh,
        Policy::of_draw((base + 5) as u64) == Policy::Duplicate,
        Policy::of_draw((base + 6) as u64) == Policy::Conflict,
        Policy::of_draw((base + 7) as u64) == Policy::Stale,
{
}

/// A fresh request is minted under the client's own identity, above every ballot
/// it minted before, and leaves a gap of at most two rounds.
pub proof fn law_fresh_request(v: ClientView, draw: u64, then: u64)
    requires
        v.valid(),
        v.next_round <= u64::MAX - 6,
        Policy::of_draw(draw) == Policy::Fresh,
        Policy::of_draw(then) == Policy::Fresh,
    ensures
        ({
            let first = v.planned(draw);
            let after = v.after_plan(draw);
            let second = after.planned(then);
            &&& first is Some && second is Some
            &&& !first->0.conflicting
            &&& first->0.ballot.node == v.proposer
            &&& second->0.ballot.node == v.proposer
            &&& v.last is Some ==> v.last->0.round < first->0.ballot.round
            &&& first->0.ballot.round < second->0.ballot.round <= first->0.ballot.round + 3
            &&& after.last == Some(first->0.ballot)
            &&& after.models == v.models
        }),
{
}

/// Before the first fresh request there is nothing to repeat; after it, a
/// repetition asks for the same ballot with the same bytes, and a conflict for
/// the same ballot with the other bytes. Neither moves the client's counter.
pub proof fn law_repeated_request(v: ClientView, draw: u64)
    requires
        Policy::of_draw(draw) == Policy::Duplicate || Policy::of_draw(draw) == Policy::Conflict,
    ensures
        v.last is None <==> v.planned(draw) is None,
        v.last is Some ==> {
            let request = v.planned(draw)->0;
            &&& request.ballot == v.last->0
            &&& request.conflicting <==> Policy::of_draw(draw) == Policy::Conflict
            &&& request.conflicting ==> v.hash_of(request) == v.conflicting_hash
            &&& !request.conflicting ==> v.hash_of(request) == v.config_hash
        },
        v.after_plan(draw).next_round == v.next_round,
        v.after_plan(draw).last == v.last,
        v.after_plan(draw).models == v.models,
{
}

/// A stale request asks for an own ballot one to three rounds below the last one
/// minted, of a round above zero; where the draw leaves no such round, nothing
/// is asked.
pub proof fn law_stale_request(v: ClientView, draw: u64)
    requires
        v.valid(),
        Policy::of_draw(draw) == Policy::Stale,
    ensures
        match v.planned(draw) {
            Some(request) => {
                &&& v.last is Some
                &&& !request.conflicting
                &&& request.ballot.node == v.proposer
                &&& 0 < request.ballot.round < v.last->0.round <= request.ballot.round + 3
                &&& request.ballot.rank() < v.last->0.rank()
            },
            None => v.last is None || v.last->0.round <= 3,
        },
        v.last is Some && v.last->0.round > 3 ==> v.planned(draw) is Some,
        v.after_plan(draw).next_round == v.next_round,
        v.after_plan(draw).last == v.last,
        v.after_plan(draw).models == v.models,
{
}

/// A plan that asks something covers its own policy and no other; one that asks
/// nothing covers none.
pub proof fn law_plan_covers_its_policy(v: ClientView, draw: u64)
    ensures
        ({
            let policy = Policy::of_draw(draw);
            let asked = v.planned(draw) is Some;
            let before = v.coverage;
            let after = v.after_plan(draw).coverage;
            &&& after.fresh == (before.fresh || asked && policy == Policy::Fresh)
            &&& after.duplicate == (before.duplicate || asked && policy == Policy::Duplicate)
            &&& after.conflict == (before.conflict || asked && policy == Policy::Conflict)
            &&& after.stale == (before.stale || asked && policy == Policy::Stale)
            &&& after.majority == before.majority
            &&& after.collected == before.collected
            &&& after.below_watermark == before.below_watermark
        }),
{
}

/// The reply at `i`, judged against what its own matchmaker told before.
pub open spec fn flagged(
    v: ClientView,
    request: MatchRequest,
    replies: Seq<Option<MatchReply>>,
    i: int,
) -> MatchViolations {
    v.models[i].violated(request.ballot, v.hash_of(request), replies[i]->0.outcome)
}

pub open spec fn answered(replies: Seq<Option<MatchReply>>, i: int) -> bool {
    0 <= i < replies.len() && replies[i] is Some
}

/// The matchmakers that registered the request.
pub open spec fn registrants(replies: Seq<Option<MatchReply>>, n: nat) -> Set<int> {
    Set::new(|i: int| 0 <= i < n && replies[i] is Some && replies[i]->0.outcome is Registered)
}

proof fn lemma_round(v: ClientView, request: MatchRequest, replies: Seq<Option<MatchReply>>, n: nat)
    requires
        n <= replies.len(),
        replies.len() == v.models.len(),
    ensures
        ({
            let after = v.after_replies(request, replies, n);
            &&& after.models.len() == v.models.len()
            &&& after.proposer == v.proposer
            &&& after.config_hash == v.config_hash
            &&& after.conflicting_hash == v.conflicting_hash
            &&& after.next_round == v.next_round
            &&& after.last == v.last
            &&& forall|i: int|
                0 <= i < v.models.len() ==> #[trigger] after.models[i] == if i < n
                    && replies[i] is Some {
                    v.models[i].after(
                        request.ballot,
                        v.hash_of(request),
                        replies[i]->0.outcome,
                    )
                } else {
                    v.models[i]
                }
            &&& after.coverage == (Coverage {
                below_watermark: after.coverage.below_watermark,
                ..v.coverage
            })
            &&& after.coverage.below_watermark <==> v.coverage.below_watermark || exists|i: int|
                i < n && #[trigger] answered(replies, i) && replies[i]->0.outcome is BelowWatermark
        }),
    decreases n,
{
    if n > 0 {
        let m = (n - 1) as nat;
        lemma_round(v, request, replies, m);
        let before = v.after_replies(request, replies, m);
        let after = v.after_replies(request, replies, n);
        if exists|i: int|
            i < n && #[trigger] answered(replies, i) && replies[i]->0.outcome is BelowWatermark {
            let i = choose|i: int|
                i < n && #[trigger] answered(replies, i) && replies[i]->0.outcome is BelowWatermark;
            if i < m {
                assert(answered(replies, i));
                assert(before.coverage.below_watermark);
            }
            assert(after.coverage.below_watermark);
        }
        if after.coverage.below_watermark && !before.coverage.below_watermark {
            assert(answered(replies, m as int));
        }
        if before.coverage.below_watermark && !v.coverage.below_watermark {
            let i = choose|i: int|
                i < m && #[trigger] answered(replies, i) && replies[i]->0.outcome is BelowWatermark;
            assert(i < n && answered(replies, i));
        }
    }
}

/// A round moves each matchmaker's model by that matchmaker's own answer and by
/// nothing else; one that did not answer keeps its model. The client's identity
/// and counter stay as they were.
pub proof fn law_round_keeps_matchmakers_apart(
    v: ClientView,
    request: MatchRequest,
    replies: Seq<Option<MatchReply>>,
)
    requires
        replies.len() == v.models.len(),
    ensures
        ({
            let after = v.after_round(request, replies);
            &&& after.models.len() == v.models.len()
            &&& after.proposer == v.proposer
            &&& after.config_hash == v.config_hash
            &&& after.conflicting_hash == v.conflicting_hash
            &&& after.next_round == v.next_round
            &&& after.last == v.last
            &&& forall|i: int|
                0 <= i < v.models.len() ==> #[trigger] after.models[i] == match replies[i] {
                    Some(reply) => v.models[i].after(
                        request.ballot,
                        v.hash_of(request),
                        reply.outcome,
                    ),
                    None => v.models[i],
                }
        }),
{
    lemma_round(v, request, replies, replies.len());
}

proof fn lemma_flags(v: ClientView, request: MatchRequest, replies: Seq<Option<MatchReply>>, n: nat)
    requires
        n <= replies.len(),
        replies.len() == v.models.len(),
    ensures
        ({
            let all = v.violated_by(request, replies, n);
            &&& forall|i: int|
                i < n && #[trigger] answered(replies, i) ==> {
                    let one = flagged(v, request, replies, i);
                    &&& one.window ==> all.window
                    &&& one.regressed ==> all.regressed
                    &&& one.missing ==> all.missing
                    &&& one.twice ==> all.twice
                    &&& one.grown ==> all.grown
                    &&& one.stale ==> all.stale
                    &&& one.floor ==> all.floor
                    &&& replies[i]->0.ballot != request.ballot || replies[i]->0.to != v.proposer
                        ==> all.echo
                }
            &&& all != MatchViolations::none() ==> exists|i: int|
                i < n && #[trigger] answered(replies, i) && (flagged(v, request, replies, i)
                    != MatchViolations::none() || replies[i]->0.ballot != request.ballot
                    || replies[i]->0.to != v.proposer)
        }),
    decreases n,
{
    if n > 0 {
        let m = (n - 1) as nat;
        lemma_flags(v, request, replies, m);
        lemma_round(v, request, replies, m);
        let before = v.violated_by(request, replies, m);
        let all = v.violated_by(request, replies, n);
        if replies[n - 1] is Some {
            assert(v.after_replies(request, replies, m).models[n - 1] == v.models[n - 1]);
        }
        if all != MatchViolations::none() {
            if before != MatchViolations::none() {
                let i = choose|i: int|
                    i < m && #[trigger] answered(replies, i) && (flagged(v, request, replies, i)
                        != MatchViolations::none() || replies[i]->0.ballot != request.ballot
                        || replies[i]->0.to != v.proposer);
                assert(i < n && answered(replies, i));
            } else {
                assert(answered(replies, n - 1));
            }
        }
    }
}

/// A round is flagged for whatever any of its answers is flagged for, and for an
/// answer that does not echo its request.
pub proof fn law_round_loses_no_flag(
    v: ClientView,
    request: MatchRequest,
    replies: Seq<Option<MatchReply>>,
    i: int,
)
    requires
        replies.len() == v.models.len(),
        answered(replies, i),
    ensures
        ({
            let all = v.verdict_on(request, replies).violations;
            let one = flagged(v, request, replies, i);
            &&& one.window ==> all.window
            &&& one.regressed ==> all.regressed
            &&& one.missing ==> all.missing
            &&& one.twice ==> all.twice
            &&& one.grown ==> all.grown
            &&& one.stale ==> all.stale
            &&& one.floor ==> all.floor
            &&& replies[i]->0.ballot != request.ballot || replies[i]->0.to != v.proposer
                ==> all.echo
        }),
{
    lemma_flags(v, request, replies, replies.len());
}

/// A round in which every answer echoes its request and is sound by itself is
/// not flagged; a probe's answers are not looked at for what they echo.
pub proof fn law_round_invents_no_flag(
    v: ClientView,
    request: MatchRequest,
    replies: Seq<Option<MatchReply>>,
)
    requires
        replies.len() == v.models.len(),
        forall|i: int| #[trigger]
            answered(replies, i) ==> flagged(v, request, replies, i) == MatchViolations::none(),
    ensures
        (forall|i: int| #[trigger]
            answered(replies, i) ==> replies[i]->0.ballot == request.ballot && replies[i]->0.to
                == v.proposer) ==> v.verdict_on(request, replies).violations
            == MatchViolations::none(),
        !v.verdict_on_probe(request, replies).violations.echo,
        !v.verdict_on_probe(request, replies).first_majority,
{
    lemma_flags(v, request, replies, replies.len());
}

proof fn lemma_registrants(replies: Seq<Option<MatchReply>>, n: nat)
    requires
        n <= replies.len(),
    ensures
        registrants(replies, n).finite(),
        registrants(replies, n).len() == registered_among(replies, n),
    decreases n,
{
    if n == 0 {
        assert(registrants(replies, 0) =~= Set::<int>::empty());
    } else {
        let m = (n - 1) as nat;
        lemma_registrants(replies, m);
        if replies[n - 1] is Some && replies[n - 1]->0.outcome is Registered {
            assert(registrants(replies, n) =~= registrants(replies, m).insert(n - 1));
        } else {
            assert(registrants(replies, n) =~= registrants(replies, m));
        }
    }
}

/// A round counts as a majority when more than half of all matchmakers, not of
/// those that answered, registered it, and as the first one only once.
pub proof fn law_majority_is_of_all_matchmakers(
    v: ClientView,
    request: MatchRequest,
    replies: Seq<Option<MatchReply>>,
)
    requires
        replies.len() == v.models.len(),
    ensures
        ({
            let majority = 2 * registrants(replies, replies.len()).len() > replies.len();
            let after = v.after_round(request, replies);
            &&& after.coverage.majority <==> v.coverage.majority || majority
            &&& v.verdict_on(request, replies).first_majority <==> !v.coverage.majority
                && after.coverage.majority
            &&& after.coverage.below_watermark <==> v.coverage.below_watermark || exists|i: int|
                #[trigger] answered(replies, i) && replies[i]->0.outcome is BelowWatermark
            &&& v.verdict_on(request, replies).first_below_watermark <==> !v.coverage.below_watermark
                && after.coverage.below_watermark
        }),
{
    lemma_registrants(replies, replies.len());
    lemma_round(v, request, replies, replies.len());
    let n = replies.len();
    if exists|i: int| #[trigger] answered(replies, i) && replies[i]->0.outcome is BelowWatermark {
        let i = choose|i: int| #[trigger]
            answered(replies, i) && replies[i]->0.outcome is BelowWatermark;
        assert(i < n && answered(replies, i));
    }
}

/// An acknowledged collection is short if another matchmaker answered it or its
/// watermark is below the one asked for; its watermark binds that matchmaker's
/// later answers, and no other's.
pub proof fn law_ack_binds_later_answers(
    v: ClientView,
    index: int,
    matchmaker: u64,
    watermark: Ballot,
    asked: Ballot,
    later: Heard,
    again: Ballot,
)
    requires
        0 <= index < v.models.len(),
    ensures
        ({
            let verdict = v.verdict_on_ack(index, matchmaker, watermark, asked);
            let after = v.after_ack(index, watermark);
            &&& verdict.short <==> matchmaker != index || watermark.rank() < asked.rank()
            &&& verdict.regressed <==> watermark.rank() < v.models[index].watermark.rank()
            &&& after.verdict_on_ack(index, matchmaker, again, asked).regressed <==> again.rank()
                < watermark.rank()
            &&& reported(later.outcome) is Some && reported(later.outcome)->0.rank()
                < watermark.rank() ==> after.models[index].violated(
                later.ballot,
                later.hash,
                later.outcome,
            ) != MatchViolations::none()
            &&& after.models.len() == v.models.len()
            &&& after.models[index].acked == v.models[index].acked
            &&& after.models[index].first_history == v.models[index].first_history
            &&& forall|i: int|
                0 <= i < v.models.len() && i != index ==> #[trigger] after.models[i] == v.models[i]
            &&& after.coverage == v.coverage
            &&& after.last == v.last
            &&& after.next_round == v.next_round
        }),
{
}

/// A collection is asked for at a ballot that some matchmaker registered, and that
/// no registration seen so far is above: one just seen raises it where it is the
/// highest.
pub proof fn law_collection_reaches_the_highest_registration(
    v: ClientView,
    i: int,
    ballot: Ballot,
    hash: u64,
    outcome: MatchOutcome,
    target: Ballot,
)
    requires
        0 <= i < v.models.len(),
        outcome is Registered,
        ({
            let after = ClientView {
                models: v.models.update(i, v.models[i].after(ballot, hash, outcome)),
                ..v
            };
            after.highest_acked(target)
        }),
    ensures
        target.rank() >= ballot.rank(),
        target == ballot || v.acks(target),
        forall|b: Ballot| #[trigger] v.acks(b) ==> b.rank() <= target.rank(),
{
    let after = ClientView {
        models: v.models.update(i, v.models[i].after(ballot, hash, outcome)),
        ..v
    };
    assert(after.models[i].acked.contains_key(ballot));
    assert(after.acks(ballot));
    assert forall|b: Ballot| #[trigger] v.acks(b) implies after.acks(b) by {
        let j = choose|j: int|
            0 <= j < v.models.len() && #[trigger] v.models[j].acked.contains_key(b);
        assert(after.models[j].acked.contains_key(b));
    }
    let j = choose|j: int|
        0 <= j < after.models.len() && #[trigger] after.models[j].acked.contains_key(target);
    if target != ballot {
        assert(v.models[j].acked.contains_key(target));
    }
}

} // verus!
