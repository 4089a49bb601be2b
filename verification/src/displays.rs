//! What is shown: cut lines, bars of progress, the models that may be asked, and the
//! counts of an earlier scan.

use vstd::prelude::*;

use crate::ai;
use crate::ai::{CandidateView, ModelSummaryView, StartView};
use crate::archive;
use crate::endpoint;
use crate::meter;
use crate::model::{AiReportView, AiStatusView};
use crate::order;
use crate::storage;
use crate::storage::AnalysisView;
use crate::width;

verus! {

/// How many columns the characters of a text take together.
pub open spec fn all_columns(text: Seq<char>) -> nat
    decreases text.len(),
{
    if text.len() == 0 {
        0
    } else {
        all_columns(text.drop_last()) + width::columns(text.last())
    }
}

proof fn lemma_columns_from_front(text: Seq<char>)
    requires
        text.len() > 0,
    ensures
        all_columns(text) == width::columns(text[0]) + all_columns(text.drop_first()),
    decreases text.len(),
{
    if text.len() > 1 {
        lemma_columns_from_front(text.drop_last());
        assert(text.drop_first().drop_last() =~= text.drop_last().drop_first());
    } else {
        assert(text.drop_last() =~= text.drop_first());
    }
}

proof fn lemma_fitting(text: Seq<char>, room: nat)
    ensures
        width::fitting(text, room) <= text.len(),
        all_columns(text.take(width::fitting(text, room) as int)) <= room,
        width::fitting(text, room) < text.len() ==> all_columns(
            text.take(width::fitting(text, room) as int + 1),
        ) > room,
    decreases text.len(),
{
    let count = width::fitting(text, room);
    if text.len() == 0 {
        assert(text.take(0).len() == 0);
    } else if width::columns(text[0]) > room {
        assert(text.take(0).len() == 0);
        assert(text.take(1) =~= seq![text[0]]);
        assert(seq![text[0]].drop_last().len() == 0);
        reveal_with_fuel(all_columns, 2);
    } else {
        let rest = text.drop_first();
        let left = (room - width::columns(text[0])) as nat;
        lemma_fitting(rest, left);
        assert(text.take(count as int).drop_first() =~= rest.take(count - 1));
        lemma_columns_from_front(text.take(count as int));
        if count < text.len() {
            assert(text.take(count as int + 1).drop_first() =~= rest.take(count as int));
            lemma_columns_from_front(text.take(count as int + 1));
        }
    }
}

proof fn lemma_fitting_end(text: Seq<char>, room: nat)
    ensures
        width::fitting_end(text, room) <= text.len(),
        all_columns(text.skip(text.len() - width::fitting_end(text, room))) <= room,
        width::fitting_end(text, room) < text.len() ==> all_columns(
            text.skip(text.len() - width::fitting_end(text, room) - 1),
        ) > room,
    decreases text.len(),
{
    let count = width::fitting_end(text, room);
    if text.len() == 0 {
        assert(text.skip(0).len() == 0);
    } else if width::columns(text.last()) > room {
        assert(text.skip(text.len() as int).len() == 0);
        assert(text.skip(text.len() - 1) =~= seq![text.last()]);
        assert(seq![text.last()].drop_last().len() == 0);
        reveal_with_fuel(all_columns, 2);
    } else {
        let front = text.drop_last();
        let left = (room - width::columns(text.last())) as nat;
        lemma_fitting_end(front, left);
        let end = text.skip(text.len() - count);
        assert(end.drop_last() =~= front.skip(front.len() - (count - 1)));
        assert(end.last() == text.last());
        if count < text.len() {
            let more = text.skip(text.len() - count - 1);
            assert(more.drop_last() =~= front.skip(front.len() - (count - 1) - 1));
            assert(more.last() == text.last());
        }
    }
}

/// A text that fits is shown as it is. One that does not is cut at its end: it keeps
/// as many characters from its beginning as there is room for beside an ellipsis, no
/// more and no fewer, and the ellipsis stands behind them. Cut at its beginning it
/// keeps as many from its end, behind the ellipsis. In no columns nothing is shown.
pub proof fn law_cut_lines_keep_what_there_is_room_for(line: Seq<char>, columns: nat)
    ensures
        width::str_width(line) <= columns ==> width::truncated_end(line, columns) == line
            && width::truncated_start(line, columns) == line,
        width::str_width(line) > columns && columns == 0 ==> width::truncated_end(line, columns)
            == ""@ && width::truncated_start(line, columns) == ""@,
        width::str_width(line) > columns && columns > 0 ==> {
            let room = if columns > width::str_width("…"@) {
                columns - width::str_width("…"@)
            } else {
                0
            };
            &&& exists|kept: int|
                {
                    &&& 0 <= kept <= line.len()
                    &&& width::truncated_end(line, columns) == #[trigger] line.take(kept) + "…"@
                    &&& all_columns(line.take(kept)) <= room
                    &&& kept < line.len() ==> all_columns(line.take(kept + 1)) > room
                }
            &&& exists|from: int|
                {
                    &&& 0 <= from <= line.len()
                    &&& width::truncated_start(line, columns) == "…"@ + #[trigger] line.skip(from)
                    &&& all_columns(line.skip(from)) <= room
                    &&& from > 0 ==> all_columns(line.skip(from - 1)) > room
                }
        },
{
    if width::str_width(line) > columns && columns > 0 {
        let room = width::room_beside_ellipsis(columns);
        lemma_fitting(line, room);
        lemma_fitting_end(line, room);
        let kept = width::fitting(line, room) as int;
        let from = line.len() - width::fitting_end(line, room);
        assert(width::truncated_end(line, columns) == line.take(kept) + "…"@);
        assert(width::truncated_start(line, columns) == "…"@ + line.skip(from));
    }
}

/// A bar stands between brackets and has as many places as asked for. The places
/// that are filled come first; there are as many as belong to what is done of all
/// that is to do, rounded down: none where nothing is done or to do, and all where
/// all is done.
pub proof fn law_bars_are_filled_by_what_is_done(current: nat, total: nat, length: nat)
    ensures
        ({
            let bar = meter::bar(current, total, length);
            exists|done: int|
                {
                    &&& 0 <= done <= length
                    &&& bar == #[trigger] filled_bar(done, length as int)
                    &&& total == 0 || current == 0 ==> done == 0
                    &&& total > 0 && current >= total ==> done == length
                    &&& total > 0 && current < total ==> done * total <= current * length < (done
                        + 1) * total
                }
        }),
{
    let done = meter::filled(current, total, length) as int;
    if total > 0 {
        let reached = if current < total {
            current
        } else {
            total
        };
        let share = (reached * length) as int;
        assert(share <= total * length) by (nonlinear_arith)
            requires
                share == reached * length,
                reached <= total,
                0 <= length,
        ;
        assert(0 <= share) by (nonlinear_arith)
            requires
                share == reached * length,
                0 <= reached,
                0 <= length,
        ;
        vstd::arithmetic::div_mod::lemma_fundamental_div_mod(share, total as int);
        assert(share / (total as int) * total <= share < (share / (total as int) + 1) * total)
            by (nonlinear_arith)
            requires
                share == total * (share / (total as int)) + share % (total as int),
                0 <= share % (total as int) < total,
        ;
        assert(0 <= share / (total as int) <= length) by (nonlinear_arith)
            requires
                share / (total as int) * total <= share < (share / (total as int) + 1) * total,
                0 <= share <= total * length,
                0 < total,
        ;
        if current == 0 {
            assert(share == 0) by (nonlinear_arith)
                requires
                    share == reached * length,
                    reached == 0,
            ;
            assert(share / (total as int) == 0) by (nonlinear_arith)
                requires
                    share == 0,
                    0 < total,
            ;
        }
        if current >= total {
            assert(share / (total as int) == length) by (nonlinear_arith)
                requires
                    share == total * length,
                    0 < total,
            ;
        }
    }
    assert(meter::bar(current, total, length) =~= filled_bar(done, length as int)) by {
        reveal_strlit("[");
        reveal_strlit("]");
    }
}

/// A bar with its first places filled.
pub open spec fn filled_bar(done: int, length: int) -> Seq<char> {
    Seq::new(
        (length + 2) as nat,
        |i: int|
            if i == 0 {
                '['
            } else if i == length + 1 {
                ']'
            } else if i <= done {
                '━'
            } else {
                '─'
            },
    )
}

/// Whether a model goes by a name.
pub open spec fn goes_by(summary: ModelSummaryView, name: Seq<char>) -> bool {
    summary.name == name || summary.model == name
}

/// Whether a model runs on another machine.
pub open spec fn runs_elsewhere(summary: ModelSummaryView) -> bool {
    ||| summary.remote_model is Some && summary.remote_model->Some_0.len() > 0
    ||| summary.remote_host is Some && summary.remote_host->Some_0.len() > 0
}

proof fn lemma_named(models: Seq<ModelSummaryView>, name: Seq<char>, from: int)
    requires
        0 <= from <= models.len(),
    ensures
        ai::model_named(models, name, from) is None ==> forall|i: int|
            from <= i < models.len() ==> !goes_by(#[trigger] models[i], name),
        ai::model_named(models, name, from) is Some ==> exists|i: int|
            {
                &&& from <= i < models.len()
                &&& #[trigger] models[i] == ai::model_named(models, name, from)->Some_0
                &&& goes_by(models[i], name)
                &&& forall|k: int| from <= k < i ==> !goes_by(#[trigger] models[k], name)
            },
    decreases models.len() - from,
{
    if from < models.len() && !goes_by(models[from], name) {
        lemma_named(models, name, from + 1);
        if ai::model_named(models, name, from) is Some {
            let i = choose|i: int|
                {
                    &&& from + 1 <= i < models.len()
                    &&& #[trigger] models[i] == ai::model_named(models, name, from + 1)->Some_0
                    &&& goes_by(models[i], name)
                    &&& forall|k: int| from + 1 <= k < i ==> !goes_by(#[trigger] models[k], name)
                };
            assert(models[i] == ai::model_named(models, name, from)->Some_0);
        }
    }
}

/// A model may be asked where one that goes by its name is installed and the first
/// of these runs on this machine; else it is refused.
pub proof fn law_only_installed_local_models_are_asked(
    models: Seq<ModelSummaryView>,
    name: Seq<char>,
)
    ensures
        ai::model_refusal(models, name) is None <==> exists|i: int|
            {
                &&& 0 <= i < models.len()
                &&& goes_by(#[trigger] models[i], name)
                &&& !runs_elsewhere(models[i])
                &&& forall|k: int| 0 <= k < i ==> !goes_by(#[trigger] models[k], name)
            },
{
    lemma_named(models, name, 0);
    if exists|i: int|
        {
            &&& 0 <= i < models.len()
            &&& goes_by(#[trigger] models[i], name)
            &&& !runs_elsewhere(models[i])
            &&& forall|k: int| 0 <= k < i ==> !goes_by(#[trigger] models[k], name)
        } {
        let i = choose|i: int|
            {
                &&& 0 <= i < models.len()
                &&& goes_by(#[trigger] models[i], name)
                &&& !runs_elsewhere(models[i])
                &&& forall|k: int| 0 <= k < i ==> !goes_by(#[trigger] models[k], name)
            };
        let j = choose|j: int|
            {
                &&& 0 <= j < models.len()
                &&& #[trigger] models[j] == ai::model_named(models, name, 0)->Some_0
                &&& goes_by(models[j], name)
                &&& forall|k: int| 0 <= k < j ==> !goes_by(#[trigger] models[k], name)
            };
        if i < j {
            assert(!goes_by(models[i], name));
        } else if j < i {
            assert(!goes_by(models[j], name));
        }
    }
}

/// Without candidates nothing is asked, whatever the endpoint; with some, all of
/// them are asked about at a local endpoint, and at no other.
pub proof fn law_candidates_are_asked_about_at_local_endpoints(
    candidates: Seq<CandidateView>,
    address: Seq<char>,
)
    ensures
        candidates.len() == 0 ==> ai::start_of(candidates, address) == StartView::Settled(
            AiReportView {
                status: AiStatusView::NoCandidates,
                candidates_considered: 0,
                explanations: Seq::empty(),
                warnings: Seq::empty(),
            },
        ),
        candidates.len() > 0 ==> match ai::start_of(candidates, address) {
            StartView::Ask { endpoint: plain, candidates: asked } => asked == candidates
                && endpoint::local_endpoint(address) == Ok::<Seq<char>, Seq<char>>(plain),
            StartView::Settled(report) => {
                &&& endpoint::local_endpoint(address) is Err
                &&& report.status is Unavailable
                &&& report.explanations.len() == 0
                &&& candidates.len() <= u64::MAX ==> report.candidates_considered
                    == candidates.len()
            },
        },
{
}

/// What history tells of an analysis are the counts of what its review lists, what was
/// scanned and how much there was; and nothing has been recovered yet.
pub proof fn law_history_counts_what_a_review_lists(id: i64, analysis: AnalysisView)
    requires
        analysis.findings.len() <= u64::MAX,
        analysis.duplicates.groups.len() <= u64::MAX,
        analysis.relationships.relationships.len() <= u64::MAX,
        analysis.scan.warnings.len() + analysis.duplicates.warnings.len() <= u64::MAX,
        analysis.ai.explanations.len() <= u64::MAX,
    ensures
        ({
            let review = archive::reviewed(id, analysis);
            let told = review.summary;
            &&& told.id == id
            &&& told.recommendation_count == review.findings.len() == analysis.findings.len()
            &&& told.duplicate_group_count == review.duplicate_groups.len()
            &&& told.relationship_count == review.relationships.len()
            &&& told.warning_count == review.warnings.len()
            &&& told.ai_explanation_count == review.ai_explanations.len()
            &&& told.recovered_space_bytes == 0
            &&& told.root == analysis.scan.root
            &&& told.root_spelling == analysis.scan.root_spelling
            &&& told.started_at_epoch_seconds == analysis.scan.started_at_epoch_seconds
            &&& told.completed_at_epoch_seconds == analysis.scan.completed_at_epoch_seconds
            &&& told.total_size_bytes == analysis.scan.total_size_bytes
            &&& told.total_allocated_size_bytes == analysis.scan.total_allocated_size_bytes
            &&& told.file_count == analysis.scan.file_count
            &&& told.directory_count == analysis.scan.directory_count
            &&& told.duplicate_recovery_bytes
                == analysis.duplicates.potential_recovery_allocated_bytes
            &&& told.ai_candidate_count == analysis.ai.candidates_considered
            &&& analysis.ai.status matches AiStatusView::Complete { model } ==> told.ai_model
                == Some(model)
            &&& analysis.ai.status matches AiStatusView::Partial { model } ==> told.ai_model
                == Some(model)
            &&& review.findings.to_multiset() == analysis.findings.to_multiset()
        }),
{
    storage::lemma_review_order();
    order::law_sorted_is_an_ordered_permutation(analysis.findings, storage::review_order());
    order::lemma_sorted_len(analysis.findings, storage::review_order());
}

} // verus!
