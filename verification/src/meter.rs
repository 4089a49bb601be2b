//! The line that tells how far an analysis has come.

use crate::canvas::Theme;
use crate::path;
use crate::path::PartView;
use crate::progress::{AnalysisPhase, EventView, ProgressEvent};
use crate::size;
use crate::text;
use vstd::prelude::*;

verus! {

/// How much of a bar is filled.
pub open spec fn filled(current: nat, total: nat, length: nat) -> nat {
    if total == 0 {
        0
    } else {
        (if current < total {
            current
        } else {
            total
        }) * length / total
    }
}

/// A bar that is filled as far as the work has come.
pub open spec fn bar(current: nat, total: nat, length: nat) -> Seq<char> {
    "["@ + text::repeated('━', filled(current, total, length)) + text::repeated(
        '─',
        (length - filled(current, total, length)) as nat,
    ) + "]"@
}

pub fn progress_bar(current: u64, total: u64, length: usize) -> (result: String)
    ensures
        result@ == bar(current as nat, total as nat, length as nat),
{
    let done: usize = if total == 0 {
        0
    } else {
        let bounded: u64 = if current < total {
            current
        } else {
            total
        };
        proof {
            assert(bounded * length <= total * length) by (nonlinear_arith)
                requires
                    bounded <= total,
                    0 <= length,
            ;
            assert(total * length <= u128::MAX) by (nonlinear_arith)
                requires
                    total <= 0xffff_ffff_ffff_ffff,
                    length <= 0xffff_ffff_ffff_ffff,
            ;
            assert(bounded * length / (total as int) <= length) by (nonlinear_arith)
                requires
                    bounded * length <= total * length,
                    0 < total,
            ;
            assert(0 <= bounded * length) by (nonlinear_arith)
                requires
                    0 <= bounded,
                    0 <= length,
            ;
        }
        (bounded as u128 * length as u128 / total as u128) as usize
    };
    text::cat4(
        "[",
        text::repeat('━', done).as_str(),
        text::repeat('─', length - done).as_str(),
        "]",
    )
}

/// A path told by its last two names.
pub open spec fn compact(path: Seq<PartView>) -> Seq<char> {
    path::shown(path::last_names(path, 2))
}

pub fn compact_path(path: &path::FilePath) -> (result: String)
    ensures
        result@ == compact(path@),
{
    path.last_names(2).display()
}

/// What a phase is called.
pub open spec fn phase_name(phase: AnalysisPhase) -> Seq<char> {
    match phase {
        AnalysisPhase::Scanning => "Scanning files"@,
        AnalysisPhase::HashingDuplicates => "Checking duplicates"@,
        AnalysisPhase::BuildingRecommendations => "Building advice"@,
        AnalysisPhase::DetectingRelationships => "Connecting context"@,
        AnalysisPhase::ExplainingCandidates => "Explaining context"@,
        AnalysisPhase::Complete => "Complete"@,
    }
}

fn name_of_phase(phase: AnalysisPhase) -> (result: &'static str)
    ensures
        result@ == phase_name(phase),
{
    match phase {
        AnalysisPhase::Scanning => "Scanning files",
        AnalysisPhase::HashingDuplicates => "Checking duplicates",
        AnalysisPhase::BuildingRecommendations => "Building advice",
        AnalysisPhase::DetectingRelationships => "Connecting context",
        AnalysisPhase::ExplainingCandidates => "Explaining context",
        AnalysisPhase::Complete => "Complete",
    }
}

/// How many hundredths of the work are done, as far as the count can be told
/// in hundredths.
pub open spec fn hundredths(processed: nat, total: nat) -> nat {
    (if processed * 100 > u64::MAX {
        u64::MAX as nat
    } else {
        processed * 100
    }) / total
}

/// How far the items of a phase have come.
pub open spec fn items_told(processed: nat, total: Option<u64>) -> Seq<char> {
    match total {
        Some(all) => if all > 0 {
            bar(processed, all as nat, 12) + " "@ + text::padded_start(
                text::decimal(hundredths(processed, all as nat)),
                3,
            ) + "%  "@ + size::count_text(processed) + "/"@ + size::count_text(all as nat)
        } else {
            "[────────────]   —  0/0"@
        },
        None => size::count_text(processed) + " items"@,
    }
}

fn tell_items(processed: u64, total: Option<u64>) -> (result: String)
    ensures
        result@ == items_told(processed as nat, total),
{
    match total {
        Some(all) => if all > 0 {
            let scaled: u64 = match processed.checked_mul(100) {
                Some(scaled) => scaled,
                None => u64::MAX,
            };
            let share: u64 = scaled / all;
            text::cat7(
                progress_bar(processed, all, 12).as_str(),
                " ",
                text::pad_start(text::decimal_of(share).as_str(), 3).as_str(),
                "%  ",
                size::format_count(processed).as_str(),
                "/",
                size::format_count(all).as_str(),
            )
        } else {
            "[────────────]   —  0/0".to_owned()
        },
        None => text::cat2(size::format_count(processed).as_str(), " items"),
    }
}

/// What is told of an event.
pub open spec fn message(event: EventView) -> Seq<char> {
    if event.phase == AnalysisPhase::Complete {
        "✓ Analysis complete    "@ + size::bytes_text(event.bytes_processed as nat) + " across "@
            + size::count_text(event.items_processed as nat) + " items"@
    } else {
        let bytes = if event.bytes_processed > 0 {
            " • "@ + size::bytes_text(event.bytes_processed as nat)
        } else {
            ""@
        };
        let place = match event.current_path {
            Some(known) => " • "@ + compact(known.path),
            None => ""@,
        };
        "◐ "@ + text::padded_end(phase_name(event.phase), 20) + " "@ + items_told(
            event.items_processed as nat,
            event.total_items,
        ) + bytes + place
    }
}

pub fn progress_message(event: &ProgressEvent) -> (result: String)
    ensures
        result@ == message(event@),
{
    if event.phase == AnalysisPhase::Complete {
        return text::cat5(
            "✓ Analysis complete    ",
            size::format_bytes(event.bytes_processed).as_str(),
            " across ",
            size::format_count(event.items_processed).as_str(),
            " items",
        );
    }
    let bytes = if event.bytes_processed > 0 {
        text::cat2(" • ", size::format_bytes(event.bytes_processed).as_str())
    } else {
        "".to_owned()
    };
    let place = match &event.current_path {
        Some(known) => text::cat2(" • ", compact_path(known).as_str()),
        None => "".to_owned(),
    };
    text::cat6(
        "◐ ",
        text::pad_end(name_of_phase(event.phase), 20).as_str(),
        " ",
        tell_items(event.items_processed, event.total_items).as_str(),
        bytes.as_str(),
        place.as_str(),
    )
}

/// The line as it was last shown.
#[derive(Debug)]
pub struct ProgressLine {
    pub enabled: bool,
    pub visible: bool,
    pub last_phase: Option<AnalysisPhase>,
    pub last_message: Option<String>,
    pub theme: Theme,
}

#[verifier::ext_equal]
pub struct ProgressLineView {
    pub enabled: bool,
    pub visible: bool,
    pub last_phase: Option<AnalysisPhase>,
    pub last_message: Option<Seq<char>>,
    pub theme: Theme,
}

impl View for ProgressLine {
    type V = ProgressLineView;

    open spec fn view(&self) -> ProgressLineView {
        ProgressLineView {
            enabled: self.enabled,
            visible: self.visible,
            last_phase: self.last_phase,
            last_message: crate::model::optional(self.last_message),
            theme: self.theme,
        }
    }
}

/// Whether an event is shown: where lines are shown at all, it begins or ends
/// a phase or the line has stood long enough, and it tells something new.
pub open spec fn is_shown(line: ProgressLineView, event: EventView, refresh_due: bool) -> bool {
    &&& line.enabled
    &&& {
        ||| line.last_phase != Some(event.phase)
        ||| match event.total_items {
            Some(total) => event.items_processed >= total,
            None => false,
        }
        ||| refresh_due
    }
    &&& line.last_message != Some(message(event))
}

/// An event's message in the colour of its phase.
pub open spec fn message_shown(theme: Theme, event: EventView) -> Seq<char> {
    match event.phase {
        AnalysisPhase::Scanning => theme.as_aqua(message(event)),
        AnalysisPhase::HashingDuplicates => theme.as_accent(message(event)),
        AnalysisPhase::BuildingRecommendations => theme.as_yellow(message(event)),
        AnalysisPhase::DetectingRelationships => theme.as_aqua(message(event)),
        AnalysisPhase::ExplainingCandidates => theme.as_aqua(message(event)),
        AnalysisPhase::Complete => theme.as_green(message(event)),
    }
}

impl ProgressLine {
    pub fn new(enabled: bool, theme: Theme) -> (result: Self)
        ensures
            result@ == (ProgressLineView {
                enabled,
                visible: false,
                last_phase: None,
                last_message: None,
                theme,
            }),
    {
        ProgressLine { enabled, visible: false, last_phase: None, last_message: None, theme }
    }

    /// What an event has to be shown as, if it is shown. Whether the line has
    /// stood long enough is for the caller to tell.
    pub fn report(&mut self, event: &ProgressEvent, refresh_due: bool) -> (result: Option<String>)
        ensures
            is_shown(old(self)@, event@, refresh_due) ==> {
                &&& crate::model::optional(result) == Some(
                    message_shown(old(self)@.theme, event@),
                )
                &&& final(self)@ == (ProgressLineView {
                    visible: true,
                    last_phase: Some(event@.phase),
                    last_message: Some(message(event@)),
                    ..old(self)@
                })
            },
            !is_shown(old(self)@, event@, refresh_due) ==> result is None && final(self)@ == old(
                self,
            )@,
    {
        if !self.enabled {
            return None;
        }
        let changed = match self.last_phase {
            Some(phase) => phase != event.phase,
            None => true,
        };
        let complete = match event.total_items {
            Some(total) => event.items_processed >= total,
            None => false,
        };
        if !changed && !complete && !refresh_due {
            return None;
        }
        let told = progress_message(event);
        let repeated = match &self.last_message {
            Some(last) => text::same_text(last.as_str(), told.as_str()),
            None => false,
        };
        if repeated {
            return None;
        }
        let shown = match event.phase {
            AnalysisPhase::Scanning => self.theme.aqua(told.as_str()),
            AnalysisPhase::HashingDuplicates => self.theme.accent(told.as_str()),
            AnalysisPhase::BuildingRecommendations => self.theme.yellow(told.as_str()),
            AnalysisPhase::DetectingRelationships => self.theme.aqua(told.as_str()),
            AnalysisPhase::ExplainingCandidates => self.theme.aqua(told.as_str()),
            AnalysisPhase::Complete => self.theme.green(told.as_str()),
        };
        self.visible = true;
        self.last_phase = Some(event.phase);
        self.last_message = Some(told);
        Some(shown)
    }

    /// Whether the line has to be ended.
    pub fn finish(&mut self) -> (result: bool)
        ensures
            result == (old(self)@.enabled && old(self)@.visible),
            final(self)@ == (ProgressLineView {
                visible: old(self)@.visible && !old(self)@.enabled,
                ..old(self)@
            }),
    {
        if self.enabled && self.visible {
            self.visible = false;
            true
        } else {
            false
        }
    }
}

/// An event that was just shown is not shown again.
pub proof fn law_a_message_is_not_repeated(line: ProgressLineView, event: EventView, due: bool)
    requires
        line.last_message == Some(message(event)),
    ensures
        !is_shown(line, event, due),
{
}

} // verus!
