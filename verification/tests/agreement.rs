use paros_sim::matchmaking::{
    MatchOutcome, MatchReply, MatchmakingClient, Policy, Row, PROPOSER_ID_BASE,
};
use paros_sim::oracle::{
    merged, CampaignGates, ChainAgreement, ChainEvent, ChainFact, Frontier, StreamCounts,
};
use paros_sim::records::Ballot;
use paros_sim::stage::CommandKind;

fn at(seq: u64, fact: ChainFact) -> ChainEvent {
    ChainEvent { seq, fact }
}

fn proposed(seq: u64, command: u64) -> ChainEvent {
    at(
        seq,
        ChainFact::Submitted {
            command: Some(command),
        },
    )
}

fn applied(seq: u64, node: u64, index: u64, state: u64, command: u64) -> ChainEvent {
    at(
        seq,
        ChainFact::Applied {
            node: Some(node),
            index: Some(index),
            state: Some(state),
            command: Some(command),
            kind: Some(CommandKind::User),
            slot: Some(index - 1),
        },
    )
}

fn jumped(seq: u64, node: u64, index: u64, state: u64) -> ChainEvent {
    at(
        seq,
        ChainFact::Snapshot {
            node: Some(node),
            index: Some(index),
            state: Some(state),
        },
    )
}

const NO_STREAMS: StreamCounts = StreamCounts {
    compact_accepted: 0,
    compacted: 0,
    snapshot_installed: 0,
    resigned: 0,
    crashed: 0,
    relinquished: 0,
};

#[test]
fn agreeing_applies_violate_nothing() {
    let mut oracle = ChainAgreement::new();
    assert!(oracle.observe(proposed(1, 70)).is_none());
    for node in 0..3 {
        assert!(oracle.observe(applied(5 + node, node, 1, 900, 70)).is_none());
    }
}

#[test]
fn two_states_at_one_index_disagree() {
    let mut oracle = ChainAgreement::new();
    oracle.observe(proposed(1, 70));
    oracle.observe(applied(2, 0, 1, 900, 70));
    let other_state = oracle.observe(applied(3, 1, 1, 901, 70));
    assert!(other_state.disagreement);
    assert!(!other_state.gap);
    // The first state stands.
    assert!(oracle.observe(jumped(4, 2, 1, 901)).disagreement);
    assert!(oracle.observe(jumped(5, 2, 1, 900)).is_none());
}

#[test]
fn two_commands_at_one_index_disagree() {
    let mut oracle = ChainAgreement::new();
    oracle.observe(proposed(1, 70));
    oracle.observe(proposed(1, 71));
    oracle.observe(applied(2, 0, 1, 900, 70));
    assert!(oracle.observe(applied(3, 1, 1, 900, 71)).disagreement);
}

#[test]
fn a_skipped_index_is_a_gap() {
    let mut oracle = ChainAgreement::new();
    oracle.observe(proposed(1, 70));
    assert!(oracle.observe(applied(2, 0, 2, 900, 70)).gap);
    // A jump moves the walk; the next transition follows it.
    oracle.observe(jumped(3, 1, 7, 907));
    assert!(!oracle.observe(applied(4, 1, 8, 908, 70)).gap);
}

#[test]
fn a_jump_never_goes_backward() {
    let mut oracle = ChainAgreement::new();
    oracle.observe(jumped(1, 0, 7, 907));
    assert!(oracle.observe(jumped(2, 0, 6, 906)).backward_jump);
}

#[test]
fn a_reset_restarts_the_walk() {
    let mut oracle = ChainAgreement::new();
    oracle.observe(proposed(1, 70));
    oracle.observe(jumped(1, 0, 7, 907));
    oracle.observe(at(2, ChainFact::Reset { node: Some(0) }));
    assert!(oracle.observe(applied(3, 0, 1, 901, 70)).is_none());
}

#[test]
fn only_what_was_proposed_before_is_applied() {
    let mut oracle = ChainAgreement::new();
    assert!(oracle.observe(applied(2, 0, 1, 900, 70)).unproposed);
    oracle.observe(proposed(9, 71));
    assert!(oracle.observe(applied(9, 0, 2, 901, 71)).unproposed);
    assert!(oracle.observe(applied(10, 1, 1, 900, 71)).disagreement);
    // A gap fill needs no proposal.
    let noop = at(
        11,
        ChainFact::Applied {
            node: Some(2),
            index: Some(1),
            state: Some(900),
            command: Some(70),
            kind: Some(CommandKind::Noop),
            slot: None,
        },
    );
    assert!(!oracle.observe(noop).unproposed);
    assert!(oracle.noop_applied);
}

#[test]
fn facts_are_judged_in_run_order() {
    let shuffled = vec![
        applied(9, 0, 2, 902, 71),
        applied(3, 0, 1, 901, 70),
        applied(6, 1, 1, 901, 70),
    ];
    let ordered = merged(&shuffled);
    let seqs: Vec<u64> = ordered.iter().map(|e| e.seq).collect();
    assert_eq!(seqs, vec![3, 6, 9]);
    let mut oracle = ChainAgreement::new();
    let report = oracle.observe_batch(&vec![proposed(1, 70), proposed(2, 71)], &shuffled);
    assert!(report.violations.is_none());
    assert_eq!(report.frontiers.len(), 3);
}

#[test]
fn a_frontier_tells_leader_fault_and_floor() {
    let mut oracle = ChainAgreement::new();
    oracle.observe(at(1, ChainFact::Leader { node: Some(0) }));
    oracle.observe(at(2, ChainFact::Fault { regime: Some(2) }));
    oracle.observe(at(
        3,
        ChainFact::Compacted {
            node: Some(0),
            first: Some(1),
        },
    ));
    let event = applied(4, 0, 1, 900, 70);
    let frontier = oracle.frontier(event).unwrap();
    assert_eq!(
        frontier,
        Frontier {
            leads: true,
            fault: 2,
            floor: frontier.floor,
            applied_count: 1,
        }
    );
    assert!(!oracle.frontier(applied(5, 1, 1, 900, 70)).unwrap().leads);
}

#[test]
fn fault_kinds_fall_into_regimes() {
    assert_eq!(ChainAgreement::fault_regime("storage_crash"), 2);
    assert_eq!(ChainAgreement::fault_regime("process_restart"), 3);
    assert_eq!(ChainAgreement::fault_regime("partition"), 1);
    assert_eq!(ChainAgreement::fault_regime(""), 1);
}

#[test]
fn a_campaign_owes_progress_after_a_change_of_leader() {
    let mut oracle = ChainAgreement::new();
    oracle.observe(at(1, ChainFact::Leader { node: Some(0) }));
    oracle.observe(at(2, ChainFact::Acked));
    oracle.observe(at(3, ChainFact::Leader { node: Some(1) }));
    let before = oracle.check_campaign_gates(NO_STREAMS);
    assert_eq!(
        before,
        CampaignGates::Campaign {
            acknowledged_after_change: false,
            compaction_took_effect: false,
            snapshot_installed: false,
            old_leader_gone: false,
            new_leader_elected: true,
        }
    );
    oracle.observe(at(4, ChainFact::Acked));
    let after = oracle.check_campaign_gates(StreamCounts {
        compact_accepted: 1,
        compacted: 1,
        relinquished: 1,
        ..NO_STREAMS
    });
    assert_eq!(
        after,
        CampaignGates::Campaign {
            acknowledged_after_change: true,
            compaction_took_effect: true,
            snapshot_installed: false,
            old_leader_gone: true,
            new_leader_elected: true,
        }
    );
}

#[test]
fn the_safety_flavour_asks_for_no_progress_and_survives_a_reset() {
    let mut oracle = ChainAgreement::safety_only();
    oracle.observe(at(1, ChainFact::Leader { node: Some(0) }));
    oracle.reset();
    assert_eq!(oracle.leaders_seen, 0);
    assert_eq!(
        oracle.check_campaign_gates(NO_STREAMS),
        CampaignGates::SafetyOnly {
            noop_applied: false
        }
    );
}

const FRESH: u64 = 0;
const DUPLICATE: u64 = 5;
const CONFLICT: u64 = 6;
const STALE: u64 = 7;

fn ballot(round: u64, node: u64) -> Ballot {
    Ballot { round, node }
}

fn registered(asked: Ballot, history: Vec<Row>, gc_watermark: Ballot) -> Option<MatchReply> {
    Some(MatchReply {
        ballot: asked,
        to: PROPOSER_ID_BASE,
        outcome: MatchOutcome::Registered {
            history,
            gc_watermark,
        },
    })
}

#[test]
fn a_draw_picks_the_operation() {
    assert_eq!(Policy::from_draw(4), Policy::Fresh);
    assert_eq!(Policy::from_draw(8 + 5), Policy::Duplicate);
    assert_eq!(Policy::from_draw(8 + 6), Policy::Conflict);
    assert_eq!(Policy::from_draw(8 + 7), Policy::Stale);
}

#[test]
fn a_client_builds_on_its_last_request() {
    let mut client = MatchmakingClient::new(0, 3, 11, 22);
    assert!(client.plan(DUPLICATE).is_none());
    assert!(client.plan(CONFLICT).is_none());
    assert!(client.plan(STALE).is_none());
    let first = client.plan(FRESH).unwrap();
    assert_eq!(first.request.ballot, ballot(1, 100));
    assert!(first.first);
    assert!(client.plan(STALE).is_none());
    // The draw's high bits skip rounds.
    let skipping = client.plan(FRESH | (2 << 8)).unwrap();
    assert_eq!(skipping.request.ballot, ballot(2, 100));
    assert!(!skipping.first);
    let next = client.plan(FRESH).unwrap();
    assert_eq!(next.request.ballot, ballot(5, 100));
    let conflict = client.plan(CONFLICT).unwrap();
    assert!(conflict.request.conflicting);
    assert_eq!(conflict.request.ballot, ballot(5, 100));
    let stale = client.plan(STALE | (1 << 8)).unwrap();
    assert_eq!(stale.request.ballot, ballot(3, 100));
}

#[test]
fn a_majority_is_noted_once() {
    let mut client = MatchmakingClient::new(0, 3, 11, 22);
    let request = client.plan(FRESH).unwrap().request;
    let low = ballot(0, 0);
    let replies = vec![
        registered(request.ballot, Vec::new(), low),
        None,
        registered(request.ballot, Vec::new(), low),
    ];
    let verdict = client.judge_replies(request, &replies);
    assert!(verdict.violations.is_none());
    assert!(verdict.first_majority);
    let again = client.plan(DUPLICATE).unwrap().request;
    assert!(!client.judge_replies(again, &replies).first_majority);
}

#[test]
fn an_answer_must_echo_and_cover_what_it_registered() {
    let mut client = MatchmakingClient::new(0, 1, 11, 22);
    let first = client.plan(FRESH).unwrap().request;
    let low = ballot(0, 0);
    client.judge_replies(first, &vec![registered(first.ballot, Vec::new(), low)]);
    let second = client.plan(FRESH).unwrap().request;
    let silent = client.judge_replies(second, &vec![registered(first.ballot, Vec::new(), low)]);
    assert!(silent.violations.echo);
    assert!(silent.violations.missing);

    let third = client.plan(FRESH).unwrap().request;
    let rows = vec![
        Row {
            ballot: first.ballot,
            hash: 11,
        },
        Row {
            ballot: second.ballot,
            hash: 11,
        },
    ];
    let sound = client.judge_replies(third, &vec![registered(third.ballot, rows, low)]);
    assert!(sound.violations.is_none());

    let above = vec![Row {
        ballot: ballot(90, 0),
        hash: 1,
    }];
    let window = client.judge_replies(third, &vec![registered(third.ballot, above, low)]);
    assert!(window.violations.window);
    assert!(window.violations.grown);
}

#[test]
fn a_ballot_is_registered_once_and_watermarks_only_rise() {
    let mut client = MatchmakingClient::new(0, 1, 11, 22);
    let first = client.plan(FRESH).unwrap().request;
    client.judge_replies(
        first,
        &vec![registered(first.ballot, Vec::new(), first.ballot)],
    );
    let conflict = client.plan(CONFLICT).unwrap().request;
    let twice = client.judge_replies(
        conflict,
        &vec![registered(conflict.ballot, Vec::new(), ballot(0, 0))],
    );
    assert!(twice.violations.twice);
    assert!(twice.violations.regressed);
}

#[test]
fn a_refusal_names_something_above_the_request() {
    let mut client = MatchmakingClient::new(0, 2, 11, 22);
    let first = client.plan(FRESH).unwrap().request;
    let refusal = |outcome| {
        Some(MatchReply {
            ballot: first.ballot,
            to: PROPOSER_ID_BASE,
            outcome,
        })
    };
    let verdict = client.judge_replies(
        first,
        &vec![
            refusal(MatchOutcome::Stale {
                highest: ballot(0, 5),
            }),
            refusal(MatchOutcome::BelowWatermark {
                watermark: ballot(1, 100),
            }),
        ],
    );
    assert!(verdict.violations.stale);
    assert!(verdict.violations.floor);
    assert!(verdict.first_below_watermark);
    let sound = client.judge_replies(
        first,
        &vec![
            refusal(MatchOutcome::Stale {
                highest: ballot(2, 0),
            }),
            refusal(MatchOutcome::BelowWatermark {
                watermark: ballot(2, 0),
            }),
        ],
    );
    assert!(sound.violations.is_none());
}

#[test]
fn a_collection_targets_the_highest_own_registration() {
    let mut client = MatchmakingClient::new(0, 1, 11, 22);
    assert_eq!(client.collect_target(), None);
    for _ in 0..2 {
        let request = client.plan(FRESH).unwrap().request;
        client.judge_replies(
            request,
            &vec![registered(request.ballot, Vec::new(), ballot(0, 0))],
        );
    }
    let target = client.collect_target().unwrap();
    assert_eq!(target, ballot(2, 100));
    let short = client.judge_ack(0, 0, ballot(1, 0), target);
    assert!(short.short);
    let sound = client.judge_ack(0, 0, target, target);
    assert!(!sound.short && !sound.regressed);
    let back = client.judge_ack(0, 0, ballot(2, 0), ballot(2, 0));
    assert!(back.regressed);
    let probe = client.floor_probe(target);
    assert_eq!(probe.ballot, ballot(2, 99));
    let refused = Some(MatchReply {
        ballot: target,
        to: 7,
        outcome: MatchOutcome::BelowWatermark { watermark: target },
    });
    let verdict = client.judge_probe(probe, &vec![refused]);
    assert!(verdict.violations.is_none());
    assert!(verdict.first_below_watermark);
    let taken = Some(MatchReply {
        ballot: probe.ballot,
        to: PROPOSER_ID_BASE,
        outcome: MatchOutcome::Stale {
            highest: ballot(1, 0),
        },
    });
    assert!(client.judge_probe(probe, &vec![taken]).violations.stale);
}
