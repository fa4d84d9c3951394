//! What the scripted cases ask for, line by line, against what their own earlier
//! lines have set up: commands are numbered from where the last ones ended, no
//! node that is down is asked or waited for, and what every node must show is
//! what the lines before have decided, less what the injection took away.
use crate::corpus::{
    BareQuorumWorkload, ChunkMaskWorkload, E1MaskWorkload, SnapshotLifecycleWorkload,
    bare_quorum_script, chunk_mask_script, lifecycle_script, mask_script,
};
use crate::masks::{
    BARE_SLOT, CORPUS_NODES, clean_at, held_prefix, law_bare_quorum_loss_is_exact,
    law_cluster_holds_at_first_loss, law_mask_derivation_matches_ground_truth, log_only,
    lost_slots, primed, rot_bare_quorum, rot_mask,
};
use crate::script::{Act, CaseRun, Line, Owed};
use crate::world::WorldView;
use vstd::prelude::*;

verus! {

/// How many commands the lines before `k` prime.
pub open spec fn primed_before(script: Seq<Line>, k: int) -> int
    decreases k,
{
    if k <= 0 {
        0
    } else {
        primed_before(script, k - 1) + match script[k - 1].act {
            Act::Prime { count, exclude, seq_base, slot_base } => count as int,
            _ => 0,
        }
    }
}

/// How many commands the lines before `k` have decided. A compaction decides
/// two: the marker its point is captured at, and the truncation itself.
pub open spec fn decided_before(script: Seq<Line>, k: int) -> int
    decreases k,
{
    if k <= 0 {
        0
    } else {
        decided_before(script, k - 1) + match script[k - 1].act {
            Act::Prime { count, exclude, seq_base, slot_base } => count as int,
            Act::Compact { up_to, exclude } => 2,
            _ => 0,
        }
    }
}

/// The floor that the last compaction before `k` asks for.
pub open spec fn floor_before(script: Seq<Line>, k: int) -> int
    decreases k,
{
    if k <= 0 {
        0
    } else {
        match script[k - 1].act {
            Act::Compact { up_to, exclude } => up_to + 1,
            _ => floor_before(script, k - 1),
        }
    }
}

/// The lines before `k` leave `node` held down.
pub open spec fn down_before(script: Seq<Line>, k: int, node: int) -> bool
    decreases k,
{
    if k <= 0 {
        false
    } else {
        match script[k - 1].act {
            Act::Hold { node: held } => held == node || down_before(script, k - 1, node),
            Act::Release { node: held } => held != node && down_before(script, k - 1, node),
            _ => down_before(script, k - 1, node),
        }
    }
}

/// The lines before `k` inject the case's corruption.
pub open spec fn injected_before(script: Seq<Line>, k: int) -> bool
    decreases k,
{
    k > 0 && (script[k - 1].act is Inject || injected_before(script, k - 1))
}

/// `exclude` names the one node that is down, or none where none is.
pub open spec fn spares_the_down(script: Seq<Line>, k: int, exclude: Option<usize>) -> bool {
    forall|node: int|
        0 <= node < CORPUS_NODES ==> (#[trigger] down_before(script, k, node) <==> exclude == Some(
            node as usize,
        ))
}

/// Every node from `from` to before `to` is up.
pub open spec fn all_up(script: Seq<Line>, k: int, from: int, to: int) -> bool {
    forall|node: int| from <= node < to ==> !#[trigger] down_before(script, k, node)
}

/// The line at `k` fits what the lines before it have set up.
pub open spec fn fits(script: Seq<Line>, k: int) -> bool {
    &&& match script[k].act {
        Act::Prime { count, exclude, seq_base, slot_base } => {
            &&& count > 0
            &&& seq_base == primed_before(script, k)
            &&& slot_base == decided_before(script, k)
            &&& spares_the_down(script, k, exclude)
            &&& script[k].owed == Owed::Vital
        },
        Act::AwaitReplicated { from, to, slots, applied } => {
            &&& 0 <= from < to <= CORPUS_NODES
            &&& slots == decided_before(script, k)
            &&& applied == decided_before(script, k)
            &&& all_up(script, k, from as int, to as int)
            &&& script[k - 1].act is Prime ==> forall|node: int|
                0 <= node < CORPUS_NODES && !(from <= node < to) ==> #[trigger] down_before(
                    script,
                    k,
                    node,
                )
        },
        Act::Compact { up_to, exclude } => {
            &&& up_to + 1 == decided_before(script, k)
            &&& spares_the_down(script, k, exclude)
        },
        Act::AwaitFloors { from, to, floor } => {
            &&& floor == floor_before(script, k)
            &&& floor > 0
            &&& forall|node: int|
                0 <= node < CORPUS_NODES ==> (#[trigger] down_before(script, k, node) <==> !(from
                    <= node < to))
        },
        Act::AwaitPoint { floor, point, applied } => {
            &&& floor == floor_before(script, k)
            &&& floor > 0
            &&& point == primed_before(script, k)
            &&& applied == decided_before(script, k)
            &&& all_up(script, k, 0, CORPUS_NODES as int)
        },
        Act::AwaitInstall { rank, index } => {
            &&& index == floor_before(script, k)
            &&& index > 0
            &&& all_up(script, k, 0, CORPUS_NODES as int)
        },
        Act::Hold { node } => node < CORPUS_NODES && !down_before(script, k, node as int),
        Act::Release { node } => down_before(script, k, node as int),
        Act::RotSnapshot { node, restart } => node < CORPUS_NODES && (restart <==> !down_before(
            script,
            k,
            node as int,
        )),
        Act::AwaitAll { applied } => {
            &&& applied <= decided_before(script, k)
            &&& !injected_before(script, k) ==> applied == decided_before(script, k) && all_up(
                script,
                k,
                0,
                CORPUS_NODES as int,
            )
        },
        Act::HoldAll { applied } => script[k - 1].act == (Act::AwaitAll { applied }),
        Act::Inject => !injected_before(script, k) && k > 0,
        _ => true,
    }
    &&& script[k].act is Inject || injected_before(script, k) ==> script[k].owed != Owed::Nothing
}

/// Every line of the bare-quorum case fits what came before it.
#[verifier::spinoff_prover]
#[verifier::rlimit(40)]
pub proof fn law_bare_quorum_script_fits()
    ensures
        forall|k: int| 0 <= k < bare_quorum_script().len() ==> #[trigger] fits(bare_quorum_script(), k),
{
    let s = bare_quorum_script();
    assert(s.len() == 8);
    assert(primed_before(s, 0) == 0);
    assert(decided_before(s, 0) == 0);
    assert(floor_before(s, 0) == 0);
    assert(!down_before(s, 0, 0));
    assert(!down_before(s, 0, 1));
    assert(!down_before(s, 0, 2));
    assert(!injected_before(s, 0));
    assert(fits(s, 0));
    assert(primed_before(s, 1) == 2);
    assert(decided_before(s, 1) == 2);
    assert(floor_before(s, 1) == 0);
    assert(!down_before(s, 1, 0));
    assert(!down_before(s, 1, 1));
    assert(!down_before(s, 1, 2));
    assert(!injected_before(s, 1));
    assert(fits(s, 1));
    assert(primed_before(s, 2) == 2);
    assert(decided_before(s, 2) == 2);
    assert(floor_before(s, 2) == 0);
    assert(!down_before(s, 2, 0));
    assert(!down_before(s, 2, 1));
    assert(!down_before(s, 2, 2));
    assert(!injected_before(s, 2));
    assert(fits(s, 2));
    assert(primed_before(s, 3) == 2);
    assert(decided_before(s, 3) == 2);
    assert(floor_before(s, 3) == 0);
    assert(!down_before(s, 3, 0));
    assert(!down_before(s, 3, 1));
    assert(down_before(s, 3, 2));
    assert(!injected_before(s, 3));
    assert(fits(s, 3));
    assert(primed_before(s, 4) == 3);
    assert(decided_before(s, 4) == 3);
    assert(floor_before(s, 4) == 0);
    assert(!down_before(s, 4, 0));
    assert(!down_before(s, 4, 1));
    assert(down_before(s, 4, 2));
    assert(!injected_before(s, 4));
    assert(fits(s, 4));
    assert(primed_before(s, 5) == 3);
    assert(decided_before(s, 5) == 3);
    assert(floor_before(s, 5) == 0);
    assert(!down_before(s, 5, 0));
    assert(!down_before(s, 5, 1));
    assert(down_before(s, 5, 2));
    assert(!injected_before(s, 5));
    assert(fits(s, 5));
    assert(primed_before(s, 6) == 3);
    assert(decided_before(s, 6) == 3);
    assert(floor_before(s, 6) == 0);
    assert(!down_before(s, 6, 0));
    assert(!down_before(s, 6, 1));
    assert(down_before(s, 6, 2));
    assert(injected_before(s, 6));
    assert(fits(s, 6));
    assert(primed_before(s, 7) == 3);
    assert(decided_before(s, 7) == 3);
    assert(floor_before(s, 7) == 0);
    assert(!down_before(s, 7, 0));
    assert(!down_before(s, 7, 1));
    assert(down_before(s, 7, 2));
    assert(injected_before(s, 7));
    assert(fits(s, 7));
    assert(primed_before(s, 8) == 3);
    assert(decided_before(s, 8) == 3);
    assert(floor_before(s, 8) == 0);
    assert(!down_before(s, 8, 0));
    assert(!down_before(s, 8, 1));
    assert(down_before(s, 8, 2));
    assert(injected_before(s, 8));
    assert forall|k: int| 0 <= k < s.len() implies #[trigger] fits(s, k) by {
        if k == 0 {
            assert(fits(s, 0));
        } else if k == 1 {
            assert(fits(s, 1));
        } else if k == 2 {
            assert(fits(s, 2));
        } else if k == 3 {
            assert(fits(s, 3));
        } else if k == 4 {
            assert(fits(s, 4));
        } else if k == 5 {
            assert(fits(s, 5));
        } else if k == 6 {
            assert(fits(s, 6));
        } else if k == 7 {
            assert(fits(s, 7));
        }
    }
}

/// Every line of the snapshot lifecycle fits what came before it.
#[verifier::spinoff_prover]
#[verifier::rlimit(40)]
pub proof fn law_lifecycle_script_fits()
    ensures
        forall|k: int| 0 <= k < lifecycle_script().len() ==> #[trigger] fits(lifecycle_script(), k),
{
    let s = lifecycle_script();
    assert(s.len() == 22);
    assert(primed_before(s, 0) == 0);
    assert(decided_before(s, 0) == 0);
    assert(floor_before(s, 0) == 0);
    assert(!down_before(s, 0, 0));
    assert(!down_before(s, 0, 1));
    assert(!down_before(s, 0, 2));
    assert(!injected_before(s, 0));
    assert(fits(s, 0));
    assert(primed_before(s, 1) == 5);
    assert(decided_before(s, 1) == 5);
    assert(floor_before(s, 1) == 0);
    assert(!down_before(s, 1, 0));
    assert(!down_before(s, 1, 1));
    assert(!down_before(s, 1, 2));
    assert(!injected_before(s, 1));
    assert(fits(s, 1));
    assert(primed_before(s, 2) == 5);
    assert(decided_before(s, 2) == 5);
    assert(floor_before(s, 2) == 0);
    assert(!down_before(s, 2, 0));
    assert(!down_before(s, 2, 1));
    assert(!down_before(s, 2, 2));
    assert(!injected_before(s, 2));
    assert(fits(s, 2));
    assert(primed_before(s, 3) == 5);
    assert(decided_before(s, 3) == 5);
    assert(floor_before(s, 3) == 0);
    assert(!down_before(s, 3, 0));
    assert(!down_before(s, 3, 1));
    assert(!down_before(s, 3, 2));
    assert(!injected_before(s, 3));
    assert(fits(s, 3));
    assert(primed_before(s, 4) == 5);
    assert(decided_before(s, 4) == 5);
    assert(floor_before(s, 4) == 0);
    assert(!down_before(s, 4, 0));
    assert(!down_before(s, 4, 1));
    assert(!down_before(s, 4, 2));
    assert(!injected_before(s, 4));
    assert(fits(s, 4));
    assert(primed_before(s, 5) == 5);
    assert(decided_before(s, 5) == 5);
    assert(floor_before(s, 5) == 0);
    assert(down_before(s, 5, 0));
    assert(!down_before(s, 5, 1));
    assert(!down_before(s, 5, 2));
    assert(!injected_before(s, 5));
    assert(fits(s, 5));
    assert(primed_before(s, 6) == 8);
    assert(decided_before(s, 6) == 8);
    assert(floor_before(s, 6) == 0);
    assert(down_before(s, 6, 0));
    assert(!down_before(s, 6, 1));
    assert(!down_before(s, 6, 2));
    assert(!injected_before(s, 6));
    assert(fits(s, 6));
    assert(primed_before(s, 7) == 8);
    assert(decided_before(s, 7) == 10);
    assert(floor_before(s, 7) == 8);
    assert(down_before(s, 7, 0));
    assert(!down_before(s, 7, 1));
    assert(!down_before(s, 7, 2));
    assert(!injected_before(s, 7));
    assert(fits(s, 7));
    assert(primed_before(s, 8) == 8);
    assert(decided_before(s, 8) == 10);
    assert(floor_before(s, 8) == 8);
    assert(down_before(s, 8, 0));
    assert(!down_before(s, 8, 1));
    assert(!down_before(s, 8, 2));
    assert(!injected_before(s, 8));
    assert(fits(s, 8));
    assert(primed_before(s, 9) == 8);
    assert(decided_before(s, 9) == 10);
    assert(floor_before(s, 9) == 8);
    assert(down_before(s, 9, 0));
    assert(down_before(s, 9, 1));
    assert(!down_before(s, 9, 2));
    assert(!injected_before(s, 9));
    assert(fits(s, 9));
    assert(primed_before(s, 10) == 8);
    assert(decided_before(s, 10) == 10);
    assert(floor_before(s, 10) == 8);
    assert(down_before(s, 10, 0));
    assert(down_before(s, 10, 1));
    assert(down_before(s, 10, 2));
    assert(!injected_before(s, 10));
    assert(fits(s, 10));
    assert(primed_before(s, 11) == 8);
    assert(decided_before(s, 11) == 10);
    assert(floor_before(s, 11) == 8);
    assert(down_before(s, 11, 0));
    assert(down_before(s, 11, 1));
    assert(down_before(s, 11, 2));
    assert(!injected_before(s, 11));
    assert(fits(s, 11));
    assert(primed_before(s, 12) == 8);
    assert(decided_before(s, 12) == 10);
    assert(floor_before(s, 12) == 8);
    assert(!down_before(s, 12, 0));
    assert(down_before(s, 12, 1));
    assert(down_before(s, 12, 2));
    assert(!injected_before(s, 12));
    assert(fits(s, 12));
    assert(primed_before(s, 13) == 8);
    assert(decided_before(s, 13) == 10);
    assert(floor_before(s, 13) == 8);
    assert(!down_before(s, 13, 0));
    assert(down_before(s, 13, 1));
    assert(down_before(s, 13, 2));
    assert(!injected_before(s, 13));
    assert(fits(s, 13));
    assert(primed_before(s, 14) == 8);
    assert(decided_before(s, 14) == 10);
    assert(floor_before(s, 14) == 8);
    assert(!down_before(s, 14, 0));
    assert(down_before(s, 14, 1));
    assert(down_before(s, 14, 2));
    assert(!injected_before(s, 14));
    assert(fits(s, 14));
    assert(primed_before(s, 15) == 8);
    assert(decided_before(s, 15) == 10);
    assert(floor_before(s, 15) == 8);
    assert(!down_before(s, 15, 0));
    assert(!down_before(s, 15, 1));
    assert(down_before(s, 15, 2));
    assert(!injected_before(s, 15));
    assert(fits(s, 15));
    assert(primed_before(s, 16) == 8);
    assert(decided_before(s, 16) == 10);
    assert(floor_before(s, 16) == 8);
    assert(!down_before(s, 16, 0));
    assert(!down_before(s, 16, 1));
    assert(!down_before(s, 16, 2));
    assert(!injected_before(s, 16));
    assert(fits(s, 16));
    assert(primed_before(s, 17) == 8);
    assert(decided_before(s, 17) == 10);
    assert(floor_before(s, 17) == 8);
    assert(!down_before(s, 17, 0));
    assert(!down_before(s, 17, 1));
    assert(!down_before(s, 17, 2));
    assert(!injected_before(s, 17));
    assert(fits(s, 17));
    assert(primed_before(s, 18) == 8);
    assert(decided_before(s, 18) == 10);
    assert(floor_before(s, 18) == 8);
    assert(!down_before(s, 18, 0));
    assert(!down_before(s, 18, 1));
    assert(!down_before(s, 18, 2));
    assert(!injected_before(s, 18));
    assert(fits(s, 18));
    assert(primed_before(s, 19) == 8);
    assert(decided_before(s, 19) == 10);
    assert(floor_before(s, 19) == 8);
    assert(!down_before(s, 19, 0));
    assert(!down_before(s, 19, 1));
    assert(!down_before(s, 19, 2));
    assert(!injected_before(s, 19));
    assert(fits(s, 19));
    assert(primed_before(s, 20) == 8);
    assert(decided_before(s, 20) == 10);
    assert(floor_before(s, 20) == 8);
    assert(!down_before(s, 20, 0));
    assert(!down_before(s, 20, 1));
    assert(!down_before(s, 20, 2));
    assert(injected_before(s, 20));
    assert(fits(s, 20));
    assert(primed_before(s, 21) == 8);
    assert(decided_before(s, 21) == 10);
    assert(floor_before(s, 21) == 8);
    assert(!down_before(s, 21, 0));
    assert(!down_before(s, 21, 1));
    assert(!down_before(s, 21, 2));
    assert(injected_before(s, 21));
    assert(fits(s, 21));
    assert(primed_before(s, 22) == 8);
    assert(decided_before(s, 22) == 10);
    assert(floor_before(s, 22) == 8);
    assert(!down_before(s, 22, 0));
    assert(!down_before(s, 22, 1));
    assert(!down_before(s, 22, 2));
    assert(injected_before(s, 22));
    assert forall|k: int| 0 <= k < s.len() implies #[trigger] fits(s, k) by {
        if k == 0 {
            assert(fits(s, 0));
        } else if k == 1 {
            assert(fits(s, 1));
        } else if k == 2 {
            assert(fits(s, 2));
        } else if k == 3 {
            assert(fits(s, 3));
        } else if k == 4 {
            assert(fits(s, 4));
        } else if k == 5 {
            assert(fits(s, 5));
        } else if k == 6 {
            assert(fits(s, 6));
        } else if k == 7 {
            assert(fits(s, 7));
        } else if k == 8 {
            assert(fits(s, 8));
        } else if k == 9 {
            assert(fits(s, 9));
        } else if k == 10 {
            assert(fits(s, 10));
        } else if k == 11 {
            assert(fits(s, 11));
        } else if k == 12 {
            assert(fits(s, 12));
        } else if k == 13 {
            assert(fits(s, 13));
        } else if k == 14 {
            assert(fits(s, 14));
        } else if k == 15 {
            assert(fits(s, 15));
        } else if k == 16 {
            assert(fits(s, 16));
        } else if k == 17 {
            assert(fits(s, 17));
        } else if k == 18 {
            assert(fits(s, 18));
        } else if k == 19 {
            assert(fits(s, 19));
        } else if k == 20 {
            assert(fits(s, 20));
        } else if k == 21 {
            assert(fits(s, 21));
        }
    }
}

/// Every line of a chunk-mask case fits what came before it.
#[verifier::spinoff_prover]
#[verifier::rlimit(40)]
pub proof fn law_chunk_mask_script_fits()
    ensures
        forall|k: int| 0 <= k < chunk_mask_script().len() ==> #[trigger] fits(chunk_mask_script(), k),
{
    let s = chunk_mask_script();
    assert(s.len() == 8);
    assert(primed_before(s, 0) == 0);
    assert(decided_before(s, 0) == 0);
    assert(floor_before(s, 0) == 0);
    assert(!down_before(s, 0, 0));
    assert(!down_before(s, 0, 1));
    assert(!down_before(s, 0, 2));
    assert(!injected_before(s, 0));
    assert(fits(s, 0));
    assert(primed_before(s, 1) == 6);
    assert(decided_before(s, 1) == 6);
    assert(floor_before(s, 1) == 0);
    assert(!down_before(s, 1, 0));
    assert(!down_before(s, 1, 1));
    assert(!down_before(s, 1, 2));
    assert(!injected_before(s, 1));
    assert(fits(s, 1));
    assert(primed_before(s, 2) == 6);
    assert(decided_before(s, 2) == 6);
    assert(floor_before(s, 2) == 0);
    assert(!down_before(s, 2, 0));
    assert(!down_before(s, 2, 1));
    assert(!down_before(s, 2, 2));
    assert(!injected_before(s, 2));
    assert(fits(s, 2));
    assert(primed_before(s, 3) == 6);
    assert(decided_before(s, 3) == 8);
    assert(floor_before(s, 3) == 6);
    assert(!down_before(s, 3, 0));
    assert(!down_before(s, 3, 1));
    assert(!down_before(s, 3, 2));
    assert(!injected_before(s, 3));
    assert(fits(s, 3));
    assert(primed_before(s, 4) == 6);
    assert(decided_before(s, 4) == 8);
    assert(floor_before(s, 4) == 6);
    assert(!down_before(s, 4, 0));
    assert(!down_before(s, 4, 1));
    assert(!down_before(s, 4, 2));
    assert(!injected_before(s, 4));
    assert(fits(s, 4));
    assert(primed_before(s, 5) == 6);
    assert(decided_before(s, 5) == 8);
    assert(floor_before(s, 5) == 6);
    assert(!down_before(s, 5, 0));
    assert(!down_before(s, 5, 1));
    assert(!down_before(s, 5, 2));
    assert(injected_before(s, 5));
    assert(fits(s, 5));
    assert(primed_before(s, 6) == 6);
    assert(decided_before(s, 6) == 8);
    assert(floor_before(s, 6) == 6);
    assert(!down_before(s, 6, 0));
    assert(!down_before(s, 6, 1));
    assert(!down_before(s, 6, 2));
    assert(injected_before(s, 6));
    assert(fits(s, 6));
    assert(primed_before(s, 7) == 6);
    assert(decided_before(s, 7) == 8);
    assert(floor_before(s, 7) == 6);
    assert(!down_before(s, 7, 0));
    assert(!down_before(s, 7, 1));
    assert(!down_before(s, 7, 2));
    assert(injected_before(s, 7));
    assert(fits(s, 7));
    assert(primed_before(s, 8) == 6);
    assert(decided_before(s, 8) == 8);
    assert(floor_before(s, 8) == 6);
    assert(!down_before(s, 8, 0));
    assert(!down_before(s, 8, 1));
    assert(!down_before(s, 8, 2));
    assert(injected_before(s, 8));
    assert forall|k: int| 0 <= k < s.len() implies #[trigger] fits(s, k) by {
        if k == 0 {
            assert(fits(s, 0));
        } else if k == 1 {
            assert(fits(s, 1));
        } else if k == 2 {
            assert(fits(s, 2));
        } else if k == 3 {
            assert(fits(s, 3));
        } else if k == 4 {
            assert(fits(s, 4));
        } else if k == 5 {
            assert(fits(s, 5));
        } else if k == 6 {
            assert(fits(s, 6));
        } else if k == 7 {
            assert(fits(s, 7));
        }
    }
}

/// Every line of a slot-mask case fits what came before it, whatever the mask.
#[verifier::spinoff_prover]
#[verifier::rlimit(40)]
pub proof fn law_mask_script_fits(mask: u16)
    ensures
        forall|k: int| 0 <= k < mask_script(mask).len() ==> #[trigger] fits(mask_script(mask), k),
{
    let s = mask_script(mask);
    assert(s.len() == if held_prefix(mask) is Some {
        5int
    } else {
        4
    });
    assert(primed_before(s, 0) == 0);
    assert(decided_before(s, 0) == 0);
    assert(floor_before(s, 0) == 0);
    assert(!down_before(s, 0, 0));
    assert(!down_before(s, 0, 1));
    assert(!down_before(s, 0, 2));
    assert(!injected_before(s, 0));
    assert(fits(s, 0));
    assert(primed_before(s, 1) == 3);
    assert(decided_before(s, 1) == 3);
    assert(floor_before(s, 1) == 0);
    assert(!down_before(s, 1, 0));
    assert(!down_before(s, 1, 1));
    assert(!down_before(s, 1, 2));
    assert(!injected_before(s, 1));
    assert(fits(s, 1));
    assert(primed_before(s, 2) == 3);
    assert(decided_before(s, 2) == 3);
    assert(floor_before(s, 2) == 0);
    assert(!down_before(s, 2, 0));
    assert(!down_before(s, 2, 1));
    assert(!down_before(s, 2, 2));
    assert(!injected_before(s, 2));
    assert(fits(s, 2));
    assert(primed_before(s, 3) == 3);
    assert(decided_before(s, 3) == 3);
    assert(floor_before(s, 3) == 0);
    assert(!down_before(s, 3, 0));
    assert(!down_before(s, 3, 1));
    assert(!down_before(s, 3, 2));
    assert(injected_before(s, 3));
    assert(primed_before(s, 4) == 3);
    assert(decided_before(s, 4) == 3);
    assert(fits(s, 3));
    assert(injected_before(s, 4));
    if held_prefix(mask) is Some {
        assert(fits(s, 4));
    }
    assert forall|k: int| 0 <= k < s.len() implies #[trigger] fits(s, k) by {
        if k == 0 {
            assert(fits(s, 0));
        } else if k == 1 {
            assert(fits(s, 1));
        } else if k == 2 {
            assert(fits(s, 2));
        } else if k == 3 {
            assert(fits(s, 3));
        } else {
            assert(fits(s, 4));
        }
    }
}

/// The line at `k` asks every node for a state with `applied` commands applied.
pub open spec fn asks_all(line: Line, applied: int) -> bool {
    match line.act {
        Act::AwaitAll { applied: asked } => asked == applied,
        Act::HoldAll { applied: asked } => asked == applied,
        _ => false,
    }
}

/// The case injects at `k` and at no other line.
pub open spec fn injects_at(script: Seq<Line>, k: int) -> bool {
    &&& 0 <= k < script.len()
    &&& script[k].act is Inject
    &&& forall|i: int| 0 <= i < script.len() && (#[trigger] script[i]).act is Inject ==> i == k
}

/// The first node the case holds down goes down at `k`.
pub open spec fn first_held_at(script: Seq<Line>, k: int) -> bool {
    &&& 0 <= k < script.len()
    &&& script[k].act is Hold
    &&& forall|i: int| 0 <= i < k ==> !((#[trigger] script[i]).act is Hold)
}

/// The bare-quorum case awaits, and then watches, every node at the state below
/// the slot that its injection makes unrecoverable: with as many commands applied
/// as were primed on all nodes before one of them went down, and not with the one
/// that a bare quorum decided after.
pub proof fn law_bare_quorum_waits_below_the_loss(
    w: WorldView,
    keys: Seq<u64>,
    held: int,
    injected: int,
)
    requires
        log_only(w, keys),
        w.unrecoverable == Set::<u64>::empty(),
        clean_at(w, keys, 0, BARE_SLOT),
        clean_at(w, keys, 1, BARE_SLOT),
        !clean_at(w, keys, 2, BARE_SLOT),
        first_held_at(bare_quorum_script(), held),
        injects_at(bare_quorum_script(), injected),
    ensures
        ({
            let s = bare_quorum_script();
            let lost = rot_bare_quorum(w, keys).unrecoverable;
            let awaited = injected + 1;
            let watched = injected + 2;
            &&& s.len() == injected + 3
            &&& s[awaited].act is AwaitAll
            &&& s[watched].act is HoldAll
            &&& s[awaited].owed != Owed::Nothing
            &&& s[watched].owed != Owed::Nothing
            &&& asks_all(s[awaited], primed_before(s, held))
            &&& asks_all(s[watched], primed_before(s, held))
            &&& primed_before(s, held) < primed_before(s, injected)
            &&& exists|slot: u64|
                {
                    &&& #[trigger] lost.contains(slot)
                    &&& asks_all(s[awaited], slot as int)
                    &&& asks_all(s[watched], slot as int)
                    &&& forall|other: u64| #[trigger] lost.contains(other) ==> slot <= other
                }
        }),
{
    let s = bare_quorum_script();
    law_bare_quorum_loss_is_exact(w, keys);
    assert(s.len() == 8);
    assert(s[2].act is Hold && s[0].act is Prime && s[1].act is AwaitReplicated);
    assert(held == 2) by {
        if held < 2 {
            assert(s[held].act is Hold);
        }
    }
    assert(s[5].act is Inject);
    assert(injected == 5);
    assert(primed_before(s, 0) == 0);
    assert(primed_before(s, 1) == 2);
    assert(primed_before(s, 2) == 2);
    assert(primed_before(s, 3) == 2);
    assert(primed_before(s, 4) == 3);
    assert(primed_before(s, 5) == 3);
    let lost = rot_bare_quorum(w, keys).unrecoverable;
    assert(lost.contains(BARE_SLOT));
}

/// A slot-mask case awaits every node at the lowest slot that its injection makes
/// unrecoverable, and watches it stay there; where the injection leaves every
/// slot recoverable, it awaits every node with all that was primed.
pub proof fn law_mask_case_waits_below_the_loss(
    w: WorldView,
    keys: Seq<u64>,
    mask: u16,
    injected: int,
)
    requires
        primed(w, keys),
        injects_at(mask_script(mask), injected),
    ensures
        ({
            let s = mask_script(mask);
            let lost = rot_mask(w, keys, mask).unrecoverable;
            &&& s[injected + 1].act is AwaitAll
            &&& s[injected + 1].owed != Owed::Nothing
            &&& lost == Set::<u64>::empty() ==> s.len() == injected + 2 && asks_all(
                s[injected + 1],
                primed_before(s, injected),
            )
            &&& forall|slot: u64|
                #![trigger lost.contains(slot)]
                lost.contains(slot) && (forall|other: u64| #[trigger]
                    lost.contains(other) ==> slot <= other) ==> {
                    &&& s.len() == injected + 3
                    &&& asks_all(s[injected + 1], slot as int)
                    &&& s[injected + 2].act is HoldAll
                    &&& asks_all(s[injected + 2], slot as int)
                    &&& s[injected + 2].owed != Owed::Nothing
                }
        }),
{
    let s = mask_script(mask);
    law_mask_derivation_matches_ground_truth(w, keys, mask);
    law_cluster_holds_at_first_loss(mask);
    assert(s[2].act is Inject);
    assert(injected == 2);
    assert(primed_before(s, 0) == 0);
    assert(primed_before(s, 1) == 3);
    assert(primed_before(s, 2) == 3);
    if let Some(at) = held_prefix(mask) {
        assert(lost_slots(mask).contains(at));
    }
}

/// Once the lifecycle's injection has taken every copy of what lies below the
/// floor, every node is awaited, and then watched, with nothing applied; before
/// it every node has applied all that was decided. A chunk-mask case's injection
/// takes no decided state: every node is awaited with all of it.
pub proof fn law_point_cases_end_where_the_injection_leaves_them(life: int, chunk: int)
    requires
        injects_at(lifecycle_script(), life),
        injects_at(chunk_mask_script(), chunk),
    ensures
        ({
            let s = lifecycle_script();
            &&& s.len() == life + 3
            &&& floor_before(s, life) > 0
            &&& s[life - 1].act is AwaitAll && asks_all(s[life - 1], decided_before(s, life))
            &&& s[life + 1].act is AwaitAll && asks_all(s[life + 1], 0)
            &&& s[life + 2].act is HoldAll && asks_all(s[life + 2], 0)
        }),
        ({
            let s = chunk_mask_script();
            &&& s.len() == chunk + 4
            &&& s[chunk - 1].act is AwaitPoint
            &&& s[chunk + 1].act is AwaitAll && asks_all(s[chunk + 1], decided_before(s, chunk))
            &&& s[chunk + 2].act is AwaitChunks
            &&& s[chunk + 3].act is HoldChunks
        }),
{
    let s = lifecycle_script();
    assert(s[19].act is Inject);
    assert(life == 19);
    assert(decided_before(s, 0) == 0 && floor_before(s, 0) == 0);
    assert(decided_before(s, 1) == 5 && floor_before(s, 1) == 0);
    assert(decided_before(s, 2) == 5 && floor_before(s, 2) == 0);
    assert(decided_before(s, 3) == 5 && floor_before(s, 3) == 0);
    assert(decided_before(s, 4) == 5 && floor_before(s, 4) == 0);
    assert(decided_before(s, 5) == 5 && floor_before(s, 5) == 0);
    assert(decided_before(s, 6) == 8 && floor_before(s, 6) == 0);
    assert(decided_before(s, 7) == 10 && floor_before(s, 7) == 8);
    assert(decided_before(s, 8) == 10 && floor_before(s, 8) == 8);
    assert(decided_before(s, 9) == 10 && floor_before(s, 9) == 8);
    assert(decided_before(s, 10) == 10 && floor_before(s, 10) == 8);
    assert(decided_before(s, 11) == 10 && floor_before(s, 11) == 8);
    assert(decided_before(s, 12) == 10 && floor_before(s, 12) == 8);
    assert(decided_before(s, 13) == 10 && floor_before(s, 13) == 8);
    assert(decided_before(s, 14) == 10 && floor_before(s, 14) == 8);
    assert(decided_before(s, 15) == 10 && floor_before(s, 15) == 8);
    assert(decided_before(s, 16) == 10 && floor_before(s, 16) == 8);
    assert(decided_before(s, 17) == 10 && floor_before(s, 17) == 8);
    assert(decided_before(s, 18) == 10 && floor_before(s, 18) == 8);
    assert(decided_before(s, 19) == 10 && floor_before(s, 19) == 8);
    let c = chunk_mask_script();
    assert(c[4].act is Inject);
    assert(chunk == 4);
    assert(decided_before(c, 0) == 0);
    assert(decided_before(c, 1) == 6);
    assert(decided_before(c, 2) == 6);
    assert(decided_before(c, 3) == 8);
    assert(decided_before(c, 4) == 8);
}

/// The run went through all its lines, and every line after the injection held.
pub open spec fn held_since(run: CaseRun, injected: int) -> bool {
    &&& !run.aborted
    &&& run.held@.len() == run.script@.len()
    &&& forall|i: int| injected < i < run.held@.len() ==> #[trigger] run.held@[i]
}

/// A case counts as judged only where it ran to its end and every line after its
/// injection held: a slot mask for the outcome it derives, and not for the other.
pub proof fn law_cases_are_judged_by_what_held(
    mask: u16,
    masks: E1MaskWorkload,
    run: CaseRun,
    injected: int,
)
    requires
        run.script@ == mask_script(mask),
        injects_at(mask_script(mask), injected),
    ensures
        ({
            let judged = masks.judged(mask, run);
            if lost_slots(mask) == Set::<u64>::empty() {
                &&& judged.recovered_intact <==> held_since(run, injected)
                &&& judged.waited_unrecoverable == masks.waited_unrecoverable
            } else {
                &&& judged.waited_unrecoverable <==> held_since(run, injected)
                &&& judged.recovered_intact == masks.recovered_intact
            }
        }),
{
    law_cluster_holds_at_first_loss(mask);
    let s = mask_script(mask);
    assert(s[2].act is Inject);
    assert(injected == 2);
    assert(s.len() == if held_prefix(mask) is Some {
        5int
    } else {
        4
    });
}

/// The bare-quorum case waited, and the lifecycle completed, exactly where the
/// run went to its end and its lines after the injection held.
pub proof fn law_scripted_cases_are_judged_by_what_held(
    bare: BareQuorumWorkload,
    life: SnapshotLifecycleWorkload,
    run: CaseRun,
    injected: int,
)
    ensures
        run.script@ == bare_quorum_script() && injects_at(bare_quorum_script(), injected) ==> (
        bare.judged(run).waited <==> held_since(run, injected)),
        run.script@ == lifecycle_script() && injects_at(lifecycle_script(), injected) ==> (
        life.judged(run).completed <==> held_since(run, injected)),
{
    let s = bare_quorum_script();
    assert(s[5].act is Inject && s.len() == 8);
    let t = lifecycle_script();
    assert(t[19].act is Inject && t.len() == 22);
}

/// A chunk-mask case repaired its chunks where every node came back and every
/// chunk with a clean copy did, and the case rotted something; it held the rest
/// where some chunk had no clean copy and stayed faulty. Both only in a run that
/// went to its end.
pub proof fn law_chunk_cases_are_judged_by_what_held(
    chunks: ChunkMaskWorkload,
    mask: u32,
    lost: Set<u32>,
    run: CaseRun,
    all: int,
    healed: int,
    stuck: int,
)
    requires
        run.script@ == chunk_mask_script(),
        0 <= all < run.script@.len() && run.script@[all].act is AwaitAll,
        0 <= healed < run.script@.len() && run.script@[healed].act is AwaitChunks,
        0 <= stuck < run.script@.len() && run.script@[stuck].act is HoldChunks,
    ensures
        ({
            let judged = chunks.judged(mask, lost, run);
            let ended = !run.aborted && run.held@.len() == run.script@.len();
            &&& judged.repaired_clean <==> ended && run.held@[all] && run.held@[healed] && (mask
                != 0 || chunks.rot_live_node0)
            &&& judged.unassemblable_held <==> ended && run.held@[stuck] && exists|chunk: u32|
                #[trigger] lost.contains(chunk)
            &&& judged.source == chunks.source
            &&& judged.rot_live_node0 == chunks.rot_live_node0
        }),
{
    let s = chunk_mask_script();
    assert(s[0].act is Prime && s[1].act is AwaitReplicated && s[2].act is Compact
        && s[3].act is AwaitPoint && s[4].act is Inject && s[5].act is AwaitAll
        && s[6].act is AwaitChunks && s[7].act is HoldChunks && s.len() == 8);
    assert(all == 5 && healed == 6 && stuck == 7);
    if forall|chunk: u32| !#[trigger] lost.contains(chunk) {
        assert(lost =~= Set::<u32>::empty());
    }
}

} // verus!
