//! What becomes of a model's answers.

use crate::ai;
use crate::ai::{CandidateView, ModelExplanationView};
use crate::model::{AiStatusView, Confidence, ExplanationView};
use crate::order;
use crate::path;
use crate::path::GivenView;
use crate::scanner;
use crate::text;
use vstd::prelude::*;

verus! {

/// Whether a candidate is the one that a number stands for: it bears the
/// number, and none behind it does.
pub open spec fn stands_for(candidates: Seq<CandidateView>, at: int, id: u64) -> bool {
    &&& 0 <= at < candidates.len()
    &&& candidates[at].candidate_id == id
    &&& forall|later: int|
        at < later < candidates.len() ==> (#[trigger] candidates[later]).candidate_id != id
}

/// Whether a number is that of a candidate.
pub open spec fn is_known(candidates: Seq<CandidateView>, id: u64) -> bool {
    exists|c: int| 0 <= c < candidates.len() && (#[trigger] candidates[c]).candidate_id == id
}

/// Whether an answer is the first to its number.
pub open spec fn is_first_answer(answers: Seq<ModelExplanationView>, at: int) -> bool {
    &&& 0 <= at < answers.len()
    &&& forall|b: int|
        0 <= b < at ==> (#[trigger] answers[b]).candidate_id != answers[at].candidate_id
}

/// Whether a reason is some text without the blanks around it.
pub open spec fn is_core_of(reason: Seq<char>, whole: Seq<char>) -> bool {
    exists|start: int, end: int|
        {
            &&& 0 <= start <= end <= whole.len()
            &&& reason == #[trigger] whole.subrange(start, end)
            &&& forall|i: int| 0 <= i < start ==> text::is_blank(#[trigger] whole[i])
            &&& forall|i: int| end <= i < whole.len() ==> text::is_blank(#[trigger] whole[i])
            &&& start < end ==> !text::is_blank(whole[start]) && !text::is_blank(whole[end - 1])
        }
}

/// Whether a reason can be shown: from 1 to 600 characters, none of them a
/// control character.
pub open spec fn can_be_shown(reason: Seq<char>) -> bool {
    &&& 1 <= reason.len() <= 600
    &&& forall|i: int|
        0 <= i < reason.len() ==> {
            let code = #[trigger] reason[i] as u32;
            code > 0x1f && !(0x7f <= code <= 0x9f)
        }
}

/// Whether the bits are those of a number from zero to one.
pub open spec fn is_from_none_to_full(confidence: Confidence) -> bool {
    confidence.bits <= 0x3F80_0000 || confidence.bits == 0x8000_0000
}

/// Whether an explanation gives a candidate's path to an answer.
pub open spec fn gives(
    kept: ExplanationView,
    candidate: CandidateView,
    answer: ModelExplanationView,
) -> bool {
    &&& answer.candidate_id == candidate.candidate_id
    &&& kept.path == candidate.path
    &&& kept.spelling == candidate.spelling
    &&& kept.category == answer.category
    &&& kept.risk == answer.risk
    &&& kept.confidence == answer.confidence
    &&& kept.suggested_action == answer.suggested_action
    &&& is_core_of(kept.reason, answer.reason)
}

/// The last of the first candidates with a number tells its path.
proof fn lemma_path_of(candidates: Seq<CandidateView>, id: u64, count: int) -> (c: int)
    requires
        0 <= count <= candidates.len(),
    ensures
        ai::path_of(candidates, id, count) is Some ==> {
            let given = ai::path_of(candidates, id, count)->Some_0;
            &&& 0 <= c < count
            &&& candidates[c].candidate_id == id
            &&& candidates[c].path == given.path
            &&& candidates[c].spelling == given.spelling
            &&& forall|later: int|
                c < later < count ==> (#[trigger] candidates[later]).candidate_id != id
        },
        ai::path_of(candidates, id, count) is None ==> forall|d: int|
            0 <= d < count ==> (#[trigger] candidates[d]).candidate_id != id,
    decreases count,
{
    if count <= 0 {
        0
    } else if candidates[count - 1].candidate_id == id {
        count - 1
    } else {
        lemma_path_of(candidates, id, count - 1)
    }
}

proof fn lemma_place_of(candidates: Seq<CandidateView>, id: u64)
    ensures
        ai::path_of(candidates, id, candidates.len() as int) is Some <==> is_known(candidates, id),
        forall|c: int| #[trigger]
            stands_for(candidates, c, id) ==> ai::path_of(candidates, id, candidates.len() as int)
                == Some(
                GivenView { path: candidates[c].path, spelling: candidates[c].spelling },
            ),
{
    let d = lemma_path_of(candidates, id, candidates.len() as int);
    assert forall|c: int| #[trigger] stands_for(candidates, c, id) implies ai::path_of(
        candidates,
        id,
        candidates.len() as int,
    ) == Some(GivenView { path: candidates[c].path, spelling: candidates[c].spelling }) by {
        assert(candidates[c].candidate_id == id);
        if c < d {
            assert(candidates[d].candidate_id != id);
        }
        if d < c {
            assert(candidates[c].candidate_id != id);
        }
    }
}

/// The numbers that were answered are those of candidates with an answer.
proof fn lemma_seen(
    candidates: Seq<CandidateView>,
    answers: Seq<ModelExplanationView>,
    warnings: Seq<Seq<char>>,
    count: int,
    id: u64,
)
    requires
        0 <= count <= answers.len(),
    ensures
        ai::answered(candidates, answers, warnings, count).seen.contains(id) <==> is_known(
            candidates,
            id,
        ) && exists|b: int| 0 <= b < count && (#[trigger] answers[b]).candidate_id == id,
    decreases count,
{
    if count > 0 {
        lemma_seen(candidates, answers, warnings, count - 1, id);
        let last = answers[count - 1].candidate_id;
        lemma_place_of(candidates, last);
        lemma_seen(candidates, answers, warnings, count - 1, last);
        let before = ai::answered(candidates, answers, warnings, count - 1).seen;
        let after = ai::answered(candidates, answers, warnings, count).seen;
        if after != before {
            assert(after == before.push(last));
            if before.contains(id) {
                let k = choose|k: int| 0 <= k < before.len() && before[k] == id;
                assert(after[k] == id);
            }
            if id == last {
                assert(after[after.len() - 1] == id);
            }
            if after.contains(id) && id != last {
                let k = choose|k: int| 0 <= k < after.len() && after[k] == id;
                assert(before[k] == id);
            }
        }
    }
}

proof fn lemma_presentable(answer: ModelExplanationView)
    ensures
        ai::is_presentable(answer) <==> can_be_shown(text::trimmed(answer.reason))
            && is_from_none_to_full(answer.confidence),
        is_core_of(text::trimmed(answer.reason), answer.reason),
{
    text::law_trimming_takes_blanks_from_the_ends(answer.reason);
    let reason = text::trimmed(answer.reason);
    if !ai::any_control(reason) {
        assert forall|i: int| 0 <= i < reason.len() implies ({
            let code = #[trigger] reason[i] as u32;
            code > 0x1f && !(0x7f <= code <= 0x9f)
        }) by {
            assert(!text::is_control(reason[i]));
        }
    }
    if can_be_shown(reason) {
        assert forall|i: int| 0 <= i < reason.len() implies !text::is_control(
            #[trigger] reason[i],
        ) by {
            let code = reason[i] as u32;
            assert(code > 0x1f && !(0x7f <= code <= 0x9f));
        }
    }
}

/// There is one way to take the blanks from the ends of a text.
proof fn lemma_core_is_trimmed(reason: Seq<char>, whole: Seq<char>)
    requires
        is_core_of(reason, whole),
        reason.len() > 0,
    ensures
        reason == text::trimmed(whole),
{
    text::law_trimming_takes_blanks_from_the_ends(whole);
    let (s, e) = choose|start: int, end: int|
        {
            &&& 0 <= start <= end <= whole.len()
            &&& reason == #[trigger] whole.subrange(start, end)
            &&& forall|i: int| 0 <= i < start ==> text::is_blank(#[trigger] whole[i])
            &&& forall|i: int| end <= i < whole.len() ==> text::is_blank(#[trigger] whole[i])
            &&& start < end ==> !text::is_blank(whole[start]) && !text::is_blank(whole[end - 1])
        };
    let (p, q) = choose|start: int, end: int|
        {
            &&& 0 <= start <= end <= whole.len()
            &&& text::trimmed(whole) == #[trigger] whole.subrange(start, end)
            &&& forall|i: int| 0 <= i < start ==> text::is_blank(#[trigger] whole[i])
            &&& forall|i: int| end <= i < whole.len() ==> text::is_blank(#[trigger] whole[i])
            &&& start < end ==> !text::is_blank(whole[start]) && !text::is_blank(whole[end - 1])
        };
    assert(s < e);
    assert(!text::is_blank(whole[s]) && !text::is_blank(whole[e - 1]));
    assert(p <= s && e - 1 < q);
    assert(!text::is_blank(whole[p]) && !text::is_blank(whole[q - 1]));
}

/// Where an explanation that is kept comes from.
proof fn lemma_kept_source(
    candidates: Seq<CandidateView>,
    answers: Seq<ModelExplanationView>,
    warnings: Seq<Seq<char>>,
    count: int,
    kept: ExplanationView,
)
    requires
        0 <= count <= answers.len(),
        ai::answered(candidates, answers, warnings, count).explanations.contains(kept),
    ensures
        exists|a: int, c: int|
            {
                &&& 0 <= a < count
                &&& is_first_answer(answers, a)
                &&& #[trigger] stands_for(candidates, c, (#[trigger] answers[a]).candidate_id)
                &&& gives(kept, candidates[c], answers[a])
            },
        can_be_shown(kept.reason),
        is_from_none_to_full(kept.confidence),
    decreases count,
{
    let all = ai::answered(candidates, answers, warnings, count).explanations;
    let k = choose|k: int| 0 <= k < all.len() && all[k] == kept;
    if count > 0 {
        let before = ai::answered(candidates, answers, warnings, count - 1).explanations;
        if k < before.len() {
            assert(before[k] == kept);
            lemma_kept_source(candidates, answers, warnings, count - 1, kept);
            let (a, c) = choose|a: int, c: int|
                {
                    &&& 0 <= a < count - 1
                    &&& is_first_answer(answers, a)
                    &&& #[trigger] stands_for(candidates, c, (#[trigger] answers[a]).candidate_id)
                    &&& gives(kept, candidates[c], answers[a])
                };
            assert(stands_for(candidates, c, answers[a].candidate_id));
        } else {
            let answer = answers[count - 1];
            let id = answer.candidate_id;
            let c = lemma_path_of(candidates, id, candidates.len() as int);
            lemma_place_of(candidates, id);
            lemma_presentable(answer);
            assert(stands_for(candidates, c, answers[count - 1].candidate_id));
            lemma_seen(candidates, answers, warnings, count - 1, id);
            assert(is_first_answer(answers, count - 1));
            assert(gives(kept, candidates[c], answers[count - 1]));
        }
    }
}

/// Every explanation that is kept is the first answer to the number of a
/// candidate: it bears that candidate's path, and that answer's category,
/// risk, confidence and action, and its reason without the blanks around it.
pub proof fn law_kept_explanations_answer_for_their_candidates(
    candidates: Seq<CandidateView>,
    answers: Seq<ModelExplanationView>,
    kept: ExplanationView,
)
    requires
        ai::kept_explanations(candidates, answers).contains(kept),
    ensures
        exists|a: int, c: int|
            {
                &&& 0 <= a < answers.len()
                &&& is_first_answer(answers, a)
                &&& #[trigger] stands_for(candidates, c, (#[trigger] answers[a]).candidate_id)
                &&& gives(kept, candidates[c], answers[a])
            },
        can_be_shown(kept.reason),
        is_from_none_to_full(kept.confidence),
{
    let count = answers.len() as int;
    let all = ai::answered(candidates, answers, Seq::empty(), count).explanations;
    scanner::lemma_path_ranking(|one: ExplanationView| one.path, ai::explanation_order());
    order::lemma_sorted_contains(all, kept, ai::explanation_order());
    lemma_kept_source(candidates, answers, Seq::empty(), count, kept);
}

proof fn lemma_kept_has(
    candidates: Seq<CandidateView>,
    answers: Seq<ModelExplanationView>,
    warnings: Seq<Seq<char>>,
    count: int,
    a: int,
    c: int,
    reason: Seq<char>,
)
    requires
        0 <= a < count <= answers.len(),
        is_first_answer(answers, a),
        stands_for(candidates, c, answers[a].candidate_id),
        is_core_of(reason, answers[a].reason),
        can_be_shown(reason),
        is_from_none_to_full(answers[a].confidence),
    ensures
        exists|kept: ExplanationView| #[trigger]
            ai::answered(candidates, answers, warnings, count).explanations.contains(kept) && gives(
                kept,
                candidates[c],
                answers[a],
            ) && kept.reason == reason,
    decreases count,
{
    let before = ai::answered(candidates, answers, warnings, count - 1).explanations;
    let after = ai::answered(candidates, answers, warnings, count).explanations;
    if a < count - 1 {
        lemma_kept_has(candidates, answers, warnings, count - 1, a, c, reason);
        let kept = choose|kept: ExplanationView| #[trigger]
            before.contains(kept) && gives(kept, candidates[c], answers[a]) && kept.reason
                == reason;
        let k = choose|k: int| 0 <= k < before.len() && before[k] == kept;
        assert(after[k] == kept);
        assert(after.contains(kept));
    } else {
        let id = answers[a].candidate_id;
        lemma_core_is_trimmed(reason, answers[a].reason);
        lemma_presentable(answers[a]);
        lemma_place_of(candidates, id);
        assert(candidates[c].candidate_id == id);
        lemma_seen(candidates, answers, warnings, count - 1, id);
        let kept = after.last();
        assert(after[after.len() - 1] == kept);
        assert(after.contains(kept));
        assert(gives(kept, candidates[c], answers[a]));
    }
}

/// The first answer to the number of a candidate is kept under that
/// candidate's path, where its reason can be shown and its confidence lies
/// between none and full: answers to different numbers are kept under the
/// paths of the candidates with those numbers.
pub proof fn law_answers_are_kept_for_their_candidates(
    candidates: Seq<CandidateView>,
    answers: Seq<ModelExplanationView>,
    a: int,
    c: int,
    reason: Seq<char>,
)
    requires
        is_first_answer(answers, a),
        stands_for(candidates, c, answers[a].candidate_id),
        is_core_of(reason, answers[a].reason),
        can_be_shown(reason),
        is_from_none_to_full(answers[a].confidence),
    ensures
        exists|kept: ExplanationView| #[trigger]
            ai::kept_explanations(candidates, answers).contains(kept) && gives(
                kept,
                candidates[c],
                answers[a],
            ) && kept.reason == reason,
{
    let count = answers.len() as int;
    let all = ai::answered(candidates, answers, Seq::empty(), count).explanations;
    lemma_kept_has(candidates, answers, Seq::empty(), count, a, c, reason);
    let kept = choose|kept: ExplanationView| #[trigger]
        all.contains(kept) && gives(kept, candidates[c], answers[a]) && kept.reason == reason;
    scanner::lemma_path_ranking(|one: ExplanationView| one.path, ai::explanation_order());
    order::lemma_sorted_contains(all, kept, ai::explanation_order());
    assert(ai::kept_explanations(candidates, answers).contains(kept));
}

/// The explanations that are kept stand in the order of their paths.
pub proof fn law_explanations_stand_in_the_order_of_their_paths(
    candidates: Seq<CandidateView>,
    answers: Seq<ModelExplanationView>,
    first: int,
    second: int,
)
    requires
        0 <= first < second < ai::kept_explanations(candidates, answers).len(),
    ensures
        path::at_most(
            ai::kept_explanations(candidates, answers)[first].path,
            ai::kept_explanations(candidates, answers)[second].path,
        ),
{
    let all = ai::answered(
        candidates,
        answers,
        Seq::empty(),
        answers.len() as int,
    ).explanations;
    let le = ai::explanation_order();
    scanner::lemma_path_ranking(|one: ExplanationView| one.path, le);
    order::law_sorted_is_an_ordered_permutation(all, le);
    let sorted = order::sorted(all, le);
    assert(le(sorted[first], sorted[second]));
}

/// Whether an answer can be shown: its reason without the blanks around it, and
/// its confidence.
pub open spec fn is_sound(answer: ModelExplanationView) -> bool {
    &&& exists|reason: Seq<char>| #[trigger]
        is_core_of(reason, answer.reason) && can_be_shown(reason)
    &&& is_from_none_to_full(answer.confidence)
}

proof fn lemma_sound(answer: ModelExplanationView)
    ensures
        ai::is_presentable(answer) <==> is_sound(answer),
{
    lemma_presentable(answer);
    if is_sound(answer) {
        let reason = choose|reason: Seq<char>| #[trigger]
            is_core_of(reason, answer.reason) && can_be_shown(reason);
        lemma_core_is_trimmed(reason, answer.reason);
    }
    if ai::is_presentable(answer) {
        assert(is_core_of(text::trimmed(answer.reason), answer.reason));
    }
}

/// What is wrong with an answer, where something is.
pub open spec fn fault_of(
    candidates: Seq<CandidateView>,
    answers: Seq<ModelExplanationView>,
    a: int,
) -> Option<Seq<char>> {
    let number = text::decimal(answers[a].candidate_id as nat);
    if !is_known(candidates, answers[a].candidate_id) {
        Some("model returned unknown candidate_id "@ + number)
    } else if !is_first_answer(answers, a) {
        Some("model returned candidate_id "@ + number + " more than once"@)
    } else if !is_sound(answers[a]) {
        Some("model returned invalid fields for candidate_id "@ + number)
    } else {
        None
    }
}

/// One answer more adds its fault to the warnings, where it has one.
proof fn lemma_warned_step(
    candidates: Seq<CandidateView>,
    answers: Seq<ModelExplanationView>,
    warnings: Seq<Seq<char>>,
    count: int,
)
    requires
        0 < count <= answers.len(),
    ensures
        ({
            let before = ai::answered(candidates, answers, warnings, count - 1).warnings;
            let after = ai::answered(candidates, answers, warnings, count).warnings;
            match fault_of(candidates, answers, count - 1) {
                Some(fault) => after == before.push(fault),
                None => after == before,
            }
        }),
{
    let id = answers[count - 1].candidate_id;
    lemma_place_of(candidates, id);
    lemma_seen(candidates, answers, warnings, count - 1, id);
    lemma_sound(answers[count - 1]);
    assert(is_first_answer(answers, count - 1) <==> !(exists|b: int|
        0 <= b < count - 1 && (#[trigger] answers[b]).candidate_id == id));
}

proof fn lemma_warned(
    candidates: Seq<CandidateView>,
    answers: Seq<ModelExplanationView>,
    warnings: Seq<Seq<char>>,
    count: int,
    a: int,
)
    requires
        0 <= a < count <= answers.len(),
        fault_of(candidates, answers, a) is Some,
    ensures
        ai::answered(candidates, answers, warnings, count).warnings.contains(
            fault_of(candidates, answers, a)->Some_0,
        ),
    decreases count,
{
    let before = ai::answered(candidates, answers, warnings, count - 1).warnings;
    let after = ai::answered(candidates, answers, warnings, count).warnings;
    lemma_warned_step(candidates, answers, warnings, count);
    let fault = fault_of(candidates, answers, a)->Some_0;
    if a == count - 1 {
        assert(after[after.len() - 1] == fault);
    } else {
        lemma_warned(candidates, answers, warnings, count - 1, a);
        let k = choose|k: int| 0 <= k < before.len() && before[k] == fault;
        assert(after[k] == fault);
    }
}

proof fn lemma_early_stay(
    candidates: Seq<CandidateView>,
    answers: Seq<ModelExplanationView>,
    warnings: Seq<Seq<char>>,
    count: int,
)
    requires
        0 <= count <= answers.len(),
    ensures
        warnings.is_prefix_of(ai::answered(candidates, answers, warnings, count).warnings),
        (forall|a: int| 0 <= a < count ==> (#[trigger] fault_of(candidates, answers, a)) is None)
            ==> ai::answered(candidates, answers, warnings, count).warnings == warnings,
    decreases count,
{
    if count > 0 {
        lemma_early_stay(candidates, answers, warnings, count - 1);
        lemma_warned_step(candidates, answers, warnings, count);
        let before = ai::answered(candidates, answers, warnings, count - 1).warnings;
        let after = ai::answered(candidates, answers, warnings, count).warnings;
        assert(after.subrange(0, before.len() as int) =~= before);
        assert(warnings =~= after.subrange(0, warnings.len() as int)) by {
            assert forall|i: int| 0 <= i < warnings.len() implies warnings[i] == after[i] by {
                assert(warnings[i] == before.subrange(0, warnings.len() as int)[i]);
                assert(before[i] == after.subrange(0, before.len() as int)[i]);
            }
        }
        if forall|a: int| 0 <= a < count ==> (#[trigger] fault_of(candidates, answers, a)) is None {
            assert(fault_of(candidates, answers, count - 1) is None);
        }
    }
}

proof fn lemma_omitted(
    candidates: Seq<CandidateView>,
    seen: Seq<u64>,
    warnings: Seq<Seq<char>>,
    count: int,
)
    requires
        0 <= count <= candidates.len(),
    ensures
        warnings.is_prefix_of(ai::with_omissions(candidates, seen, warnings, count)),
        forall|c: int|
            0 <= c < count && !seen.contains((#[trigger] candidates[c]).candidate_id)
                ==> ai::with_omissions(candidates, seen, warnings, count).contains(
                "model omitted candidate_id "@ + text::decimal(candidates[c].candidate_id as nat),
            ),
        (forall|c: int| 0 <= c < count ==> seen.contains((#[trigger] candidates[c]).candidate_id))
            ==> ai::with_omissions(candidates, seen, warnings, count) == warnings,
    decreases count,
{
    if count > 0 {
        lemma_omitted(candidates, seen, warnings, count - 1);
        let before = ai::with_omissions(candidates, seen, warnings, count - 1);
        let after = ai::with_omissions(candidates, seen, warnings, count);
        let id = candidates[count - 1].candidate_id;
        let line = "model omitted candidate_id "@ + text::decimal(id as nat);
        assert(before.is_prefix_of(after)) by {
            assert(after.subrange(0, before.len() as int) =~= before);
        }
        assert forall|i: int| 0 <= i < before.len() implies before[i] == after[i] by {
            assert(after.subrange(0, before.len() as int)[i] == after[i]);
        }
        assert(warnings =~= after.subrange(0, warnings.len() as int)) by {
            assert forall|i: int| 0 <= i < warnings.len() implies warnings[i] == after[i] by {
                assert(warnings[i] == before.subrange(0, warnings.len() as int)[i]);
            }
        }
        assert forall|c: int|
            0 <= c < count && !seen.contains(
                (#[trigger] candidates[c]).candidate_id,
            ) implies after.contains(
            "model omitted candidate_id "@ + text::decimal(candidates[c].candidate_id as nat),
        ) by {
            let wanted = "model omitted candidate_id "@ + text::decimal(
                candidates[c].candidate_id as nat,
            );
            if c == count - 1 {
                assert(after[after.len() - 1] == line);
            } else {
                assert(before.contains(wanted));
                let k = choose|k: int| 0 <= k < before.len() && before[k] == wanted;
                assert(after[k] == wanted);
            }
        }
        if forall|c: int| 0 <= c < count ==> seen.contains(
            (#[trigger] candidates[c]).candidate_id,
        ) {
            assert(seen.contains(candidates[count - 1].candidate_id));
        }
    }
}

/// Whatever is wrong with an answer is warned of: an answer to no candidate, a
/// second one, one that cannot be shown, a candidate without one, and an
/// answer that is not complete.
pub proof fn law_faults_are_warned_of(
    done: bool,
    candidates: Seq<CandidateView>,
    answers: Seq<ModelExplanationView>,
)
    ensures
        ({
            let warnings = ai::answer_warnings(done, candidates, answers);
            &&& forall|a: int|
                0 <= a < answers.len() ==> ((#[trigger] fault_of(
                    candidates,
                    answers,
                    a,
                )) matches Some(fault) ==> warnings.contains(fault))
            &&& forall|c: int|
                0 <= c < candidates.len() && (forall|a: int|
                    0 <= a < answers.len() ==> (#[trigger] answers[a]).candidate_id
                        != candidates[c].candidate_id) ==> warnings.contains(
                    "model omitted candidate_id "@ + text::decimal(
                        (#[trigger] candidates[c]).candidate_id as nat,
                    ),
                )
            &&& !done ==> warnings.contains("Ollama did not mark the response as complete"@)
        }),
{
    let early = ai::early_warnings(done);
    let count = answers.len() as int;
    let state = ai::answered(candidates, answers, early, count);
    let warnings = ai::answer_warnings(done, candidates, answers);
    lemma_omitted(candidates, state.seen, state.warnings, candidates.len() as int);
    lemma_early_stay(candidates, answers, early, count);
    assert forall|i: int| 0 <= i < state.warnings.len() implies state.warnings[i]
        == warnings[i] by {
        assert(warnings.subrange(0, state.warnings.len() as int)[i] == warnings[i]);
    }
    assert forall|a: int| 0 <= a < answers.len() implies ((#[trigger] fault_of(
        candidates,
        answers,
        a,
    )) matches Some(fault) ==> warnings.contains(fault)) by {
        if let Some(fault) = fault_of(candidates, answers, a) {
            lemma_warned(candidates, answers, early, count, a);
            let k = choose|k: int|
                0 <= k < state.warnings.len() && state.warnings[k] == fault;
            assert(warnings[k] == fault);
        }
    }
    assert forall|c: int|
        0 <= c < candidates.len() && (forall|a: int|
            0 <= a < answers.len() ==> (#[trigger] answers[a]).candidate_id
                != candidates[c].candidate_id) implies warnings.contains(
        "model omitted candidate_id "@ + text::decimal(
            (#[trigger] candidates[c]).candidate_id as nat,
        ),
    ) by {
        lemma_seen(candidates, answers, early, count, candidates[c].candidate_id);
    }
    if !done {
        assert(early[0] == "Ollama did not mark the response as complete"@);
        assert(state.warnings.subrange(0, early.len() as int)[0] == state.warnings[0]);
        assert(warnings[0] == early[0]);
    }
}

/// Where nothing is wrong with an answer there is no warning: it is complete,
/// and every candidate has one answer that can be shown, and there is no other
/// answer.
pub proof fn law_a_faultless_answer_is_not_warned_of(
    candidates: Seq<CandidateView>,
    answers: Seq<ModelExplanationView>,
)
    requires
        forall|a: int|
            0 <= a < answers.len() ==> (#[trigger] fault_of(candidates, answers, a)) is None,
        forall|c: int|
            0 <= c < candidates.len() ==> exists|a: int|
                0 <= a < answers.len() && (#[trigger] answers[a]).candidate_id == (
                #[trigger] candidates[c]).candidate_id,
    ensures
        ai::answer_warnings(true, candidates, answers).len() == 0,
{
    let early = ai::early_warnings(true);
    let count = answers.len() as int;
    let state = ai::answered(candidates, answers, early, count);
    lemma_early_stay(candidates, answers, early, count);
    lemma_omitted(candidates, state.seen, state.warnings, candidates.len() as int);
    assert forall|c: int| 0 <= c < candidates.len() implies state.seen.contains(
        (#[trigger] candidates[c]).candidate_id,
    ) by {
        lemma_seen(candidates, answers, early, count, candidates[c].candidate_id);
        assert(is_known(candidates, candidates[c].candidate_id));
    }
}

/// An analysis is complete where nothing was warned of, partial where
/// something was but an explanation is kept, and else unavailable.
pub proof fn law_the_status_tells_how_it_went(
    name: Seq<char>,
    explanations: Seq<ExplanationView>,
    warnings: Seq<Seq<char>>,
)
    ensures
        ai::final_status(name, explanations, warnings) is Complete <==> warnings.len() == 0,
        ai::final_status(name, explanations, warnings) is Partial <==> warnings.len() > 0
            && explanations.len() > 0,
        ai::final_status(name, explanations, warnings) is Unavailable <==> warnings.len() > 0
            && explanations.len() == 0,
        ai::final_status(name, explanations, warnings) matches AiStatusView::Complete { model }
            ==> model == name,
        ai::final_status(name, explanations, warnings) matches AiStatusView::Partial { model }
            ==> model == name,
{
}

} // verus!
