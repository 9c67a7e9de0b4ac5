//! The NVAC action definitions as data: the descriptor table, the modifiers,
//! the documented deviations from NVAC, and the Markdown document rendered
//! from them. Each table is stated once as a specification, and the functions
//! that build it are proved to produce exactly that table.

use vstd::prelude::*;

use crate::shorthand::token_action;
use crate::text::{chars_of, push_str, string_from_chars};

verus! {

/// How a descriptor's value reaches the record: typed directly by the coder,
/// computed from other events, or an optional refinement the coder may add.
#[derive(Debug, Clone, Copy, PartialEq, Eq, Structural)]
pub enum Resolution {
    /// Entered directly by the coder (e.g. a Goal).
    Coded,
    /// Computed from the event log, never stored (e.g. a Goal Assist).
    Derived,
    /// An optional coded refinement (e.g. a Gain sub-type).
    Optional,
}

/// The word the tables show for a resolution.
pub open spec fn resolution_word(resolution: Resolution) -> Seq<char> {
    match resolution {
        Resolution::Coded => "coded"@,
        Resolution::Derived => "derived"@,
        Resolution::Optional => "optional"@,
    }
}

impl Resolution {
    fn label(self) -> (r: &'static str)
        ensures
            r@ == resolution_word(self),
    {
        match self {
            Resolution::Coded => "coded",
            Resolution::Derived => "derived",
            Resolution::Optional => "optional",
        }
    }
}

/// One row of the taxonomy: an action, modifier, or derived descriptor, with
/// its Shorthand code, NVAC name, verbatim definition, and how it is resolved.
#[derive(Debug, Clone, PartialEq, Eq)]
pub struct Descriptor {
    /// The Shorthand code that records this, or `None` for a purely derived
    /// descriptor that has no code of its own (e.g. a Goal Assist).
    pub code: Option<String>,
    /// Short display label, e.g. "Centre Pass Receive".
    pub label: String,
    /// The NVAC descriptor name (Mackay et al. 2023, Table 2).
    pub nvac_descriptor: String,
    /// The definition, quoting NVAC where it defines the term.
    pub definition: String,
    /// Whether the coder records it, or the engine derives it.
    pub resolution: Resolution,
    /// The parent descriptor's label for a sub-type or derived refinement,
    /// e.g. Interception's parent is "Gain".
    pub parent: Option<String>,
}

/// The text of a [`Descriptor`], field by field.
pub ghost struct DescriptorView {
    pub code: Option<Seq<char>>,
    pub label: Seq<char>,
    pub nvac_descriptor: Seq<char>,
    pub definition: Seq<char>,
    pub resolution: Resolution,
    pub parent: Option<Seq<char>>,
}

/// The characters of an optional string.
pub open spec fn optional_text(s: Option<String>) -> Option<Seq<char>> {
    match s {
        Some(s) => Some(s@),
        None => None,
    }
}

/// The characters of an optional string slice.
pub open spec fn optional_str_text(s: Option<&str>) -> Option<Seq<char>> {
    match s {
        Some(s) => Some(s@),
        None => None,
    }
}

impl View for Descriptor {
    type V = DescriptorView;

    open spec fn view(&self) -> DescriptorView {
        DescriptorView {
            code: optional_text(self.code),
            label: self.label@,
            nvac_descriptor: self.nvac_descriptor@,
            definition: self.definition@,
            resolution: self.resolution,
            parent: optional_text(self.parent),
        }
    }
}

/// A documented, deliberate divergence from NVAC or from a naive reading of the
/// event log.
#[derive(Debug, Clone, PartialEq, Eq)]
pub struct Deviation {
    pub title: String,
    pub detail: String,
}

/// The text of a [`Deviation`].
pub ghost struct DeviationView {
    pub title: Seq<char>,
    pub detail: Seq<char>,
}

impl View for Deviation {
    type V = DeviationView;

    open spec fn view(&self) -> DeviationView {
        DeviationView { title: self.title@, detail: self.detail@ }
    }
}

/// The citation every NVAC-defined term traces to.
pub const CITATION: &'static str =
    "Mackay et al. 2023, *Consensus on a netball video analysis framework of \
        descriptors and definitions*, BJSM 57(8):441, DOI 10.1136/bjsports-2022-106187";

/// The definition text of the centre pass receive descriptor.
pub const CENTRE_PASS_RECEIVE_DEFINITION: &'static str =
    "The player of the team in possession who receives the ball from the centre pass \
        within the centre third. Codeable for GA, WA, WD, or GD.";

/// The definition text of the feed descriptor.
pub const FEED_DEFINITION: &'static str =
    "A pass from outside the goal circle to a GA or GS positioned inside it. Codeable \
        for GS, GA, WA, or C.";

/// The definition text of the goal descriptor.
pub const GOAL_DEFINITION: &'static str =
    "A successful shot at goal, from within the goal circle (GS or GA). A shot that \
        misses is the same code with the Failed modifier.";

/// The definition text of the gain descriptor.
pub const GAIN_DEFINITION: &'static str =
    "Winning possession from the opposition while play continues. Codeable for any \
        position, or TEAM when unattributable.";

/// The definition text of the unforced turnover descriptor.
pub const UNFORCED_TURNOVER_DEFINITION: &'static str =
    "Losing possession through the active team's own error or infringement. Codeable \
        for any position, or TEAM.";

/// The definition text of the infringement descriptor.
pub const INFRINGEMENT_DEFINITION: &'static str =
    "An action contrary to the rules, penalised by the umpire. Codeable for any \
        position, or TEAM.";

/// The definition text of the rebound descriptor.
pub const REBOUND_DEFINITION: &'static str =
    "Regathering the ball after an unsuccessful shot. Codeable for GS, GA, GD, or GK; \
        attacking or defensive is derived from the position.";

/// The definition text of the interception descriptor.
pub const INTERCEPTION_DEFINITION: &'static str =
    "A Gain by taking possession directly from an opposition pass, via a catch or a \
        deflection and pick-up.";

/// The definition text of the deflection descriptor.
pub const DEFLECTION_DEFINITION: &'static str =
    "A Gain in which a player touches the ball and changes its course, motion, or speed \
        without retaining possession.";

/// The definition text of the pick up descriptor.
pub const PICK_UP_DEFINITION: &'static str =
    "A Gain by securing a loose ball that was not directly passed.";

/// The definition text of the shot descriptor.
pub const SHOT_DEFINITION: &'static str =
    "Any attempt at goal, successful or not: the count of Goal events regardless of the \
        Failed modifier.";

/// The definition text of the feed with shot descriptor.
pub const FEED_WITH_SHOT_DEFINITION: &'static str =
    "A Feed followed by a shot before the possession ends. Derived from possession context.";

/// The definition text of the goal assist descriptor.
pub const GOAL_ASSIST_DEFINITION: &'static str =
    "The final pass to a GA or GS directly before a goal, with no rebound in between. \
        Derived; a rebound between the feed and the goal breaks the link.";

/// The definition text of the attacking rebound descriptor.
pub const ATTACKING_REBOUND_DEFINITION: &'static str =
    "A Rebound taken under the attacking post, by GS or GA. Derived from the position.";

/// The definition text of the defensive rebound descriptor.
pub const DEFENSIVE_REBOUND_DEFINITION: &'static str =
    "A Rebound taken under the defensive post, by GD or GK. Derived from the position.";

/// The definition text of the failed descriptor.
pub const FAILED_DEFINITION: &'static str =
    "Marks an unsuccessful attempt at the preceding action — a missed shot, an \
        incomplete feed. Applies only to a Receive, Feed, or Goal.";

/// The definition text of the flagged descriptor.
pub const FLAGGED_DEFINITION: &'static str =
    "Marks the event for later human review. Part of the event model even where no \
        review interface exists yet.";

/// The explanation of the optional gain sub types deviation.
pub const OPTIONAL_GAIN_SUB_TYPES_DETAIL: &'static str =
    "NVAC has no bare \"Gain\": every general-play turnover is an Interception, \
        Deflection, or Pick-up. Courtside a coder rarely has time to classify one, so \
        CentrePass records a bare Gain (`p`) and treats the three sub-types (`pi`, `pd`, \
        `pp`) as optional refinements.";

/// The explanation of the position derived rebounds deviation.
pub const POSITION_DERIVED_REBOUNDS_DETAIL: &'static str =
    "NVAC names Attacking and Defensive Rebounds as distinct descriptors. CentrePass \
        codes a single Rebound and derives which it is from the position that took it \
        (GS/GA attacking, GD/GK defensive), so the coder never has to choose.";

/// The explanation of the derived possessions deviation.
pub const DERIVED_POSSESSIONS_DETAIL: &'static str =
    "Possession boundaries are derived from the log, not coded (ADR-0003): a possession \
        ends at a made goal, an unforced turnover, an infringement, a quarter break, or \
        the opposition taking the ball. A possession that begins from neither a centre \
        pass nor a coded player gain is understood as an unattributed team gain, derived \
        rather than recorded.";

/// The explanation of the greedy sub types deviation.
pub const GREEDY_SUB_TYPES_DETAIL: &'static str =
    "In the Shorthand grammar the two-letter Gain sub-types are matched greedily before \
        a bare `p`, so `1pi` is an interception at GS, not a gain (`p`) followed by an \
        infringement (`i`). Code those as separate tokens when that is what you mean.";

/// The paragraph that opens the definitions document.
pub const MARKDOWN_PREAMBLE: &'static str =
    "This file is generated from `crates/netball-core/src/definitions.rs` — the same \
        data the in-app quick reference reads. Do not edit it by hand; run `cargo test -p \
        netball-core regenerate_definitions_md` (with `REGEN_DEFINITIONS=1`) after \
        changing the definitions.\n\n";

/// The paragraph that introduces the citation in the definitions document.
pub const MARKDOWN_TERMINOLOGY: &'static str =
    "Terminology follows the netball video analysis consensus (NVAC) taxonomy where \
        NVAC defines a term. Citation:\n\n";

/// The paragraph that opens the deviations section of the document.
pub const MARKDOWN_DEVIATIONS_INTRO: &'static str =
    "CentrePass departs from a literal reading of NVAC in four deliberate ways, each to \
        fit courtside coding or the derived-truth model.\n\n";

/// A descriptor row made of the given texts.
pub open spec fn row(
    code: Option<Seq<char>>,
    label: Seq<char>,
    nvac_descriptor: Seq<char>,
    definition: Seq<char>,
    resolution: Resolution,
    parent: Option<Seq<char>>,
) -> DescriptorView {
    DescriptorView { code, label, nvac_descriptor, definition, resolution, parent }
}

/// The full descriptor table, in reading order: coded actions, their optional
/// sub-types, and the descriptors the engine derives from them.
pub open spec fn definition_table() -> Seq<DescriptorView> {
    seq![
        row(Some("c"@), "Centre Pass Receive"@, "Centre Pass Receiver"@, CENTRE_PASS_RECEIVE_DEFINITION@, Resolution::Coded, None),
        row(Some("f"@), "Feed"@, "Feed into circle"@, FEED_DEFINITION@, Resolution::Coded, None),
        row(Some("g"@), "Goal"@, "Goal"@, GOAL_DEFINITION@, Resolution::Coded, None),
        row(Some("p"@), "Gain"@, "General play turnover"@, GAIN_DEFINITION@, Resolution::Coded, None),
        row(Some("e"@), "Unforced Turnover"@, "Unforced turnover"@, UNFORCED_TURNOVER_DEFINITION@, Resolution::Coded, None),
        row(Some("i"@), "Infringement"@, "Infringement"@, INFRINGEMENT_DEFINITION@, Resolution::Coded, None),
        row(Some("r"@), "Rebound"@, "Rebound"@, REBOUND_DEFINITION@, Resolution::Coded, None),
        row(Some("pi"@), "Interception"@, "Interception"@, INTERCEPTION_DEFINITION@, Resolution::Optional, Some("Gain"@)),
        row(Some("pd"@), "Deflection"@, "Deflection"@, DEFLECTION_DEFINITION@, Resolution::Optional, Some("Gain"@)),
        row(Some("pp"@), "Pick-up"@, "Pick-up"@, PICK_UP_DEFINITION@, Resolution::Optional, Some("Gain"@)),
        row(None, "Shot"@, "Shot"@, SHOT_DEFINITION@, Resolution::Derived, Some("Goal"@)),
        row(None, "Feed with Shot"@, "Feed into circle with shot"@, FEED_WITH_SHOT_DEFINITION@, Resolution::Derived, Some("Feed"@)),
        row(None, "Goal Assist"@, "Goal Assist"@, GOAL_ASSIST_DEFINITION@, Resolution::Derived, Some("Feed"@)),
        row(None, "Attacking Rebound"@, "Attacking Rebound"@, ATTACKING_REBOUND_DEFINITION@, Resolution::Derived, Some("Rebound"@)),
        row(None, "Defensive Rebound"@, "Defensive Rebound"@, DEFENSIVE_REBOUND_DEFINITION@, Resolution::Derived, Some("Rebound"@)),
    ]
}

/// The Failed and Flagged modifiers.
pub open spec fn modifier_table() -> Seq<DescriptorView> {
    seq![
        row(Some("x"@), "Failed"@, "Unsuccessful attempt"@, FAILED_DEFINITION@, Resolution::Coded, None),
        row(Some("!"@), "Flagged"@, "Flagged for review"@, FLAGGED_DEFINITION@, Resolution::Coded, None),
    ]
}

/// The intentional deviations from NVAC and from a naive log reading.
pub open spec fn deviation_table() -> Seq<DeviationView> {
    seq![
        DeviationView { title: "Optional Gain sub-types"@, detail: OPTIONAL_GAIN_SUB_TYPES_DETAIL@ },
        DeviationView { title: "Position-derived Rebound classification"@, detail: POSITION_DERIVED_REBOUNDS_DETAIL@ },
        DeviationView { title: "Derived team gains and possession boundaries"@, detail: DERIVED_POSSESSIONS_DETAIL@ },
        DeviationView { title: "Greedy Shorthand sub-type matching"@, detail: GREEDY_SUB_TYPES_DETAIL@ },
    ]
}

fn owned(s: Option<&str>) -> (r: Option<String>)
    ensures
        optional_text(r) == optional_str_text(s),
{
    match s {
        Some(s) => Some(s.to_owned()),
        None => None,
    }
}

fn descriptor(
    code: Option<&str>,
    label: &str,
    nvac: &str,
    definition: &str,
    resolution: Resolution,
    parent: Option<&str>,
) -> (d: Descriptor)
    ensures
        d@ == row(
            optional_str_text(code),
            label@,
            nvac@,
            definition@,
            resolution,
            optional_str_text(parent),
        ),
{
    Descriptor {
        code: owned(code),
        label: label.to_owned(),
        nvac_descriptor: nvac.to_owned(),
        definition: definition.to_owned(),
        resolution,
        parent: owned(parent),
    }
}

fn deviation(title: &str, detail: &str) -> (d: Deviation)
    ensures
        d@ == (DeviationView { title: title@, detail: detail@ }),
{
    Deviation { title: title.to_owned(), detail: detail.to_owned() }
}

/// The full descriptor table, in reading order: coded actions, their optional
/// sub-types, and the descriptors the engine derives from them.
pub fn definitions() -> (rows: Vec<Descriptor>)
    ensures
        rows@.len() == definition_table().len(),
        forall|i: int| 0 <= i < rows@.len() ==> (#[trigger] rows@[i])@ == definition_table()[i],
{
    let mut rows: Vec<Descriptor> = Vec::new();
    rows.push(descriptor(Some("c"), "Centre Pass Receive", "Centre Pass Receiver", CENTRE_PASS_RECEIVE_DEFINITION, Resolution::Coded, None));
    rows.push(descriptor(Some("f"), "Feed", "Feed into circle", FEED_DEFINITION, Resolution::Coded, None));
    rows.push(descriptor(Some("g"), "Goal", "Goal", GOAL_DEFINITION, Resolution::Coded, None));
    rows.push(descriptor(Some("p"), "Gain", "General play turnover", GAIN_DEFINITION, Resolution::Coded, None));
    rows.push(descriptor(Some("e"), "Unforced Turnover", "Unforced turnover", UNFORCED_TURNOVER_DEFINITION, Resolution::Coded, None));
    rows.push(descriptor(Some("i"), "Infringement", "Infringement", INFRINGEMENT_DEFINITION, Resolution::Coded, None));
    rows.push(descriptor(Some("r"), "Rebound", "Rebound", REBOUND_DEFINITION, Resolution::Coded, None));
    rows.push(descriptor(Some("pi"), "Interception", "Interception", INTERCEPTION_DEFINITION, Resolution::Optional, Some("Gain")));
    rows.push(descriptor(Some("pd"), "Deflection", "Deflection", DEFLECTION_DEFINITION, Resolution::Optional, Some("Gain")));
    rows.push(descriptor(Some("pp"), "Pick-up", "Pick-up", PICK_UP_DEFINITION, Resolution::Optional, Some("Gain")));
    rows.push(descriptor(None, "Shot", "Shot", SHOT_DEFINITION, Resolution::Derived, Some("Goal")));
    rows.push(descriptor(None, "Feed with Shot", "Feed into circle with shot", FEED_WITH_SHOT_DEFINITION, Resolution::Derived, Some("Feed")));
    rows.push(descriptor(None, "Goal Assist", "Goal Assist", GOAL_ASSIST_DEFINITION, Resolution::Derived, Some("Feed")));
    rows.push(descriptor(None, "Attacking Rebound", "Attacking Rebound", ATTACKING_REBOUND_DEFINITION, Resolution::Derived, Some("Rebound")));
    rows.push(descriptor(None, "Defensive Rebound", "Defensive Rebound", DEFENSIVE_REBOUND_DEFINITION, Resolution::Derived, Some("Rebound")));
    rows
}

/// The Failed and Flagged modifiers, in the shape the in-app reference shows.
pub fn modifiers() -> (rows: Vec<Descriptor>)
    ensures
        rows@.len() == modifier_table().len(),
        forall|i: int| 0 <= i < rows@.len() ==> (#[trigger] rows@[i])@ == modifier_table()[i],
{
    let mut rows: Vec<Descriptor> = Vec::new();
    rows.push(descriptor(Some("x"), "Failed", "Unsuccessful attempt", FAILED_DEFINITION, Resolution::Coded, None));
    rows.push(descriptor(Some("!"), "Flagged", "Flagged for review", FLAGGED_DEFINITION, Resolution::Coded, None));
    rows
}

/// The intentional deviations from NVAC and from a naive log reading.
pub fn deviations() -> (rows: Vec<Deviation>)
    ensures
        rows@.len() == deviation_table().len(),
        forall|i: int| 0 <= i < rows@.len() ==> (#[trigger] rows@[i])@ == deviation_table()[i],
{
    let mut rows: Vec<Deviation> = Vec::new();
    rows.push(deviation("Optional Gain sub-types", OPTIONAL_GAIN_SUB_TYPES_DETAIL));
    rows.push(deviation("Position-derived Rebound classification", POSITION_DERIVED_REBOUNDS_DETAIL));
    rows.push(deviation("Derived team gains and possession boundaries", DERIVED_POSSESSIONS_DETAIL));
    rows.push(deviation("Greedy Shorthand sub-type matching", GREEDY_SUB_TYPES_DETAIL));
    rows
}

// ---------------------------------------------------------------------------
// The Markdown document
// ---------------------------------------------------------------------------

/// The code column of an action row: the code in backticks, or a dash for a
/// derived descriptor without one.
pub open spec fn code_cell(code: Option<Seq<char>>) -> Seq<char> {
    match code {
        Some(code) => "`"@ + code + "`"@,
        None => "—"@,
    }
}

/// The descriptor column of an action row: the label, followed by its parent
/// where it has one.
pub open spec fn descriptor_cell(d: DescriptorView) -> Seq<char> {
    match d.parent {
        Some(parent) => d.label + " _(← "@ + parent + ")_"@,
        None => d.label,
    }
}

/// One line of the actions table.
pub open spec fn action_line(d: DescriptorView) -> Seq<char> {
    "| "@ + code_cell(d.code) + " | "@ + descriptor_cell(d) + " | "@ + d.nvac_descriptor + " | "@
        + resolution_word(d.resolution) + " | "@ + d.definition + " |\n"@
}

/// One line of the modifiers table.
pub open spec fn modifier_line(d: DescriptorView) -> Seq<char> {
    let code = match d.code {
        Some(code) => code,
        None => Seq::empty(),
    };
    "| `"@ + code + "` | "@ + d.label + " | "@ + resolution_word(d.resolution) + " | "@
        + d.definition + " |\n"@
}

/// The section of one deviation: its title as a heading, then its detail.
pub open spec fn deviation_section(d: DeviationView) -> Seq<char> {
    "### "@ + d.title + "\n\n"@ + d.detail + "\n\n"@
}

/// The action lines of `rows`, in order.
pub open spec fn action_lines(rows: Seq<DescriptorView>) -> Seq<char>
    decreases rows.len(),
{
    if rows.len() == 0 {
        Seq::empty()
    } else {
        action_lines(rows.drop_last()) + action_line(rows.last())
    }
}

/// The modifier lines of `rows`, in order.
pub open spec fn modifier_lines(rows: Seq<DescriptorView>) -> Seq<char>
    decreases rows.len(),
{
    if rows.len() == 0 {
        Seq::empty()
    } else {
        modifier_lines(rows.drop_last()) + modifier_line(rows.last())
    }
}

/// The deviation sections of `rows`, in order.
pub open spec fn deviation_sections(rows: Seq<DeviationView>) -> Seq<char>
    decreases rows.len(),
{
    if rows.len() == 0 {
        Seq::empty()
    } else {
        deviation_sections(rows.drop_last()) + deviation_section(rows.last())
    }
}

/// The document up to and including the actions table's heading rule.
pub open spec fn markdown_head() -> Seq<char> {
    "# CentrePass action definitions\n\n"@ + MARKDOWN_PREAMBLE@ + MARKDOWN_TERMINOLOGY@ + "> "@
        + CITATION@ + "\n\n"@ + "## Actions\n\n"@
        + "| Code | Descriptor | NVAC term | Resolution | Definition |\n"@
        + "| --- | --- | --- | --- | --- |\n"@
}

/// The modifiers section's heading and table head.
pub open spec fn markdown_modifiers_head() -> Seq<char> {
    "\n"@ + "## Modifiers\n\n"@ + "| Code | Modifier | Resolution | Definition |\n"@
        + "| --- | --- | --- | --- |\n"@
}

/// The deviations section's heading and introduction.
pub open spec fn markdown_deviations_head() -> Seq<char> {
    "\n"@ + "## Deviations from NVAC\n\n"@ + MARKDOWN_DEVIATIONS_INTRO@
}

/// The whole `DEFINITIONS.md` document: the descriptor table with the NVAC
/// citation, the modifiers, and the deviations section.
pub open spec fn markdown_text() -> Seq<char> {
    markdown_head() + action_lines(definition_table()) + markdown_modifiers_head()
        + modifier_lines(modifier_table()) + markdown_deviations_head() + deviation_sections(
        deviation_table(),
    )
}

fn row_text(d: &Descriptor) -> (r: String)
    ensures
        r@ == action_line(d@),
{
    let mut out = chars_of("| ");
    match &d.code {
        Some(code) => {
            push_str(&mut out, "`");
            push_str(&mut out, code.as_str());
            push_str(&mut out, "`");
        },
        None => {
            push_str(&mut out, "—");
        },
    }
    let ghost with_code = out@;
    push_str(&mut out, " | ");
    let ghost before_descriptor = out@;
    push_str(&mut out, d.label.as_str());
    match &d.parent {
        Some(parent) => {
            push_str(&mut out, " _(← ");
            push_str(&mut out, parent.as_str());
            push_str(&mut out, ")_");
        },
        None => {},
    }
    let ghost with_descriptor = out@;
    push_str(&mut out, " | ");
    push_str(&mut out, d.nvac_descriptor.as_str());
    push_str(&mut out, " | ");
    push_str(&mut out, d.resolution.label());
    push_str(&mut out, " | ");
    push_str(&mut out, d.definition.as_str());
    push_str(&mut out, " |\n");
    proof {
        assert(with_code =~= "| "@ + code_cell(d@.code));
        assert(with_descriptor =~= before_descriptor + descriptor_cell(d@));
    }
    assert(out@ =~= action_line(d@));
    string_from_chars(out.as_slice())
}

fn push_modifier_line(out: &mut Vec<char>, d: &Descriptor)
    ensures
        final(out)@ == old(out)@ + modifier_line(d@),
{
    let code: &str = match &d.code {
        Some(code) => code.as_str(),
        None => "",
    };
    proof {
        reveal_strlit("");
    }
    let mut line = chars_of("| `");
    push_str(&mut line, code);
    push_str(&mut line, "` | ");
    push_str(&mut line, d.label.as_str());
    push_str(&mut line, " | ");
    push_str(&mut line, d.resolution.label());
    push_str(&mut line, " | ");
    push_str(&mut line, d.definition.as_str());
    push_str(&mut line, " |\n");
    assert(line@ =~= modifier_line(d@));
    crate::text::push_chars(out, &line);
}

fn push_deviation_section(out: &mut Vec<char>, d: &Deviation)
    ensures
        final(out)@ == old(out)@ + deviation_section(d@),
{
    let mut section = chars_of("### ");
    push_str(&mut section, d.title.as_str());
    push_str(&mut section, "\n\n");
    push_str(&mut section, d.detail.as_str());
    push_str(&mut section, "\n\n");
    crate::text::push_chars(out, &section);
}

/// Render the `DEFINITIONS.md` document: the descriptor table with NVAC
/// citations, the modifiers, and the deviations section.
pub fn definitions_markdown() -> (r: String)
    ensures
        r@ == markdown_text(),
{
    let mut out = chars_of("# CentrePass action definitions\n\n");
    push_str(&mut out, MARKDOWN_PREAMBLE);
    push_str(&mut out, MARKDOWN_TERMINOLOGY);
    push_str(&mut out, "> ");
    push_str(&mut out, CITATION);
    push_str(&mut out, "\n\n");
    push_str(&mut out, "## Actions\n\n");
    push_str(&mut out, "| Code | Descriptor | NVAC term | Resolution | Definition |\n");
    push_str(&mut out, "| --- | --- | --- | --- | --- |\n");
    let ghost head = out@;
    assert(head == markdown_head());

    let rows = definitions();
    let ghost table = definition_table();
    let mut i: usize = 0;
    while i < rows.len()
        invariant
            0 <= i <= rows@.len(),
            rows@.len() == table.len(),
            forall|m: int| 0 <= m < rows@.len() ==> (#[trigger] rows@[m])@ == table[m],
            out@ == head + action_lines(table.take(i as int)),
        decreases rows@.len() - i,
    {
        let line = row_text(&rows[i]);
        push_str(&mut out, line.as_str());
        proof {
            assert(rows@[i as int]@ == table[i as int]);
            assert(table.take(i + 1).drop_last() =~= table.take(i as int));
            assert(out@ =~= head + action_lines(table.take(i + 1)));
        }
        i = i + 1;
    }
    assert(table.take(rows@.len() as int) =~= table);
    let ghost with_actions = out@;

    push_str(&mut out, "\n");
    push_str(&mut out, "## Modifiers\n\n");
    push_str(&mut out, "| Code | Modifier | Resolution | Definition |\n");
    push_str(&mut out, "| --- | --- | --- | --- |\n");
    let ghost mods_start = out@;
    assert(mods_start =~= with_actions + markdown_modifiers_head());

    let mods = modifiers();
    let ghost mod_table = modifier_table();
    let mut j: usize = 0;
    while j < mods.len()
        invariant
            0 <= j <= mods@.len(),
            mods@.len() == mod_table.len(),
            forall|m: int| 0 <= m < mods@.len() ==> (#[trigger] mods@[m])@ == mod_table[m],
            out@ == mods_start + modifier_lines(mod_table.take(j as int)),
        decreases mods@.len() - j,
    {
        push_modifier_line(&mut out, &mods[j]);
        proof {
            assert(mods@[j as int]@ == mod_table[j as int]);
            assert(mod_table.take(j + 1).drop_last() =~= mod_table.take(j as int));
            assert(out@ =~= mods_start + modifier_lines(mod_table.take(j + 1)));
        }
        j = j + 1;
    }
    assert(mod_table.take(mods@.len() as int) =~= mod_table);
    let ghost with_mods = out@;

    push_str(&mut out, "\n");
    push_str(&mut out, "## Deviations from NVAC\n\n");
    push_str(&mut out, MARKDOWN_DEVIATIONS_INTRO);
    let ghost devs_start = out@;
    assert(devs_start =~= with_mods + markdown_deviations_head());

    let devs = deviations();
    let ghost dev_table = deviation_table();
    let mut k: usize = 0;
    while k < devs.len()
        invariant
            0 <= k <= devs@.len(),
            devs@.len() == dev_table.len(),
            forall|m: int| 0 <= m < devs@.len() ==> (#[trigger] devs@[m])@ == dev_table[m],
            out@ == devs_start + deviation_sections(dev_table.take(k as int)),
        decreases devs@.len() - k,
    {
        push_deviation_section(&mut out, &devs[k]);
        proof {
            assert(devs@[k as int]@ == dev_table[k as int]);
            assert(dev_table.take(k + 1).drop_last() =~= dev_table.take(k as int));
            assert(out@ =~= devs_start + deviation_sections(dev_table.take(k + 1)));
        }
        k = k + 1;
    }
    assert(dev_table.take(devs@.len() as int) =~= dev_table);
    string_from_chars(out.as_slice())
}

// ---------------------------------------------------------------------------
// The table and the Shorthand grammar agree
// ---------------------------------------------------------------------------

/// Every action code the Shorthand parser accepts is documented: when the
/// parser reads an action from `token`, the code it consumed (the characters
/// after the position digit) is the code of a row of the descriptor table.
pub proof fn lemma_parsed_action_codes_are_documented(token: Seq<char>)
    ensures
        token_action(token) matches Ok((_, _, end)) ==> exists|i: int|
            0 <= i < definition_table().len() && #[trigger] definition_table()[i].code == Some(
                token.subrange(1, end),
            ),
{
    reveal_strlit("c");
    reveal_strlit("f");
    reveal_strlit("g");
    reveal_strlit("p");
    reveal_strlit("e");
    reveal_strlit("i");
    reveal_strlit("r");
    reveal_strlit("pi");
    reveal_strlit("pd");
    reveal_strlit("pp");
    let table = definition_table();
    if let Ok((_, _, end)) = token_action(token) {
        let code = token.subrange(1, end);
        let c = token[1];
        let i: int = if c == 'c' {
            0
        } else if c == 'f' {
            1
        } else if c == 'g' {
            2
        } else if c == 'e' {
            4
        } else if c == 'i' {
            5
        } else if c == 'r' {
            6
        } else if end == 2 {
            3
        } else if token[2] == 'i' {
            7
        } else if token[2] == 'd' {
            8
        } else {
            9
        };
        assert(table[i].code->0 =~= code);
        assert(table[i].code == Some(code));
    }
}

/// Every code the descriptor table documents is read by the Shorthand parser:
/// a position digit followed by the code is an action token whose action code
/// is the whole of the documented code.
pub proof fn lemma_documented_codes_are_parsed(i: int)
    requires
        0 <= i < definition_table().len(),
        definition_table()[i].code is Some,
    ensures
        ({
            let code = definition_table()[i].code->0;
            token_action(seq!['1'] + code) matches Ok((_, _, end)) && end == code.len() + 1
        }),
{
    reveal_strlit("c");
    reveal_strlit("f");
    reveal_strlit("g");
    reveal_strlit("p");
    reveal_strlit("e");
    reveal_strlit("i");
    reveal_strlit("r");
    reveal_strlit("pi");
    reveal_strlit("pd");
    reveal_strlit("pp");
    let code = definition_table()[i].code->0;
    let token = seq!['1'] + code;
    assert(token[1] == code[0]);
    assert(code.len() > 1 ==> token[2] == code[1]);
}

/// The descriptor table keeps its own rules: a descriptor has a code exactly
/// when it is coded or an optional refinement; every optional refinement is a
/// sub-type of Gain; every parent named is the label of a coded descriptor
/// that has no parent itself; and no two descriptors share a code.
pub proof fn lemma_definition_rows_are_well_formed()
    ensures
        forall|i: int|
            0 <= i < definition_table().len() ==> {
                let d = #[trigger] definition_table()[i];
                &&& (d.code is None <==> d.resolution == Resolution::Derived)
                &&& d.resolution == Resolution::Optional ==> d.parent == Some("Gain"@)
                &&& d.parent matches Some(label) ==> exists|j: int|
                    0 <= j < definition_table().len() && (#[trigger] definition_table()[j]).label == label
                        && definition_table()[j].parent is None && definition_table()[j].resolution
                        == Resolution::Coded
            },
        forall|i: int, j: int|
            0 <= i < j < definition_table().len() && (#[trigger] definition_table()[i]).code is Some
                ==> definition_table()[i].code != (#[trigger] definition_table()[j]).code,
{
    reveal_strlit("c");
    reveal_strlit("f");
    reveal_strlit("g");
    reveal_strlit("p");
    reveal_strlit("e");
    reveal_strlit("i");
    reveal_strlit("r");
    reveal_strlit("pi");
    reveal_strlit("pd");
    reveal_strlit("pp");
    let table = definition_table();
    assert(table[1].label == "Feed"@ && table[2].label == "Goal"@ && table[3].label == "Gain"@
        && table[6].label == "Rebound"@);
    assert forall|i: int, j: int|
        0 <= i < j < table.len() && (#[trigger] table[i]).code is Some implies table[i].code != (
        #[trigger] table[j]).code by {
        if table[j].code is Some {
            let a = table[i].code->0;
            let b = table[j].code->0;
            assert(a.len() != b.len() || a[0] != b[0] || a[a.len() - 1] != b[b.len() - 1]);
        }
    }
}

} // verus!
