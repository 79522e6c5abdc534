//! The interactive browser: its state, its answer to keys, and what its panels show.

use vstd::prelude::*;

use crate::blueprint::{is_hit, GraphModel};
use crate::graph::ImpactGraph;
use crate::impact::{hits_are_walks, is_dependency_walk};
use crate::order::{is_sorted, joined_holds, text_le};
use crate::parser::{has_action, join_actions, joined_words, Action, Plan, ResourceChange};
use crate::report::sorted_blast;
use crate::text::{decimal, decimal_text, opt_text, owned, texts};

verus! {

// ── Styled text ──────────────────────────────────────────────────────────────

#[derive(Debug, Clone, Copy, PartialEq, Eq, Structural)]
pub enum Color {
    White,
    DarkGray,
    Red,
    Green,
    Yellow,
    Magenta,
    Cyan,
}

/// How a piece of text looks. Without a color it has the terminal's own.
#[derive(Debug, Clone, Copy, PartialEq, Eq, Structural)]
pub struct Style {
    pub color: Option<Color>,
    pub bold: bool,
}

/// A piece of a line.
#[derive(Debug, Clone)]
pub struct Span {
    pub text: String,
    pub style: Style,
}

#[derive(Debug, Clone)]
pub struct Line {
    pub spans: Vec<Span>,
}

/// A piece of a line, by its text.
pub struct SpanModel {
    pub text: Seq<char>,
    pub style: Style,
}

impl View for Span {
    type V = SpanModel;

    open spec fn view(&self) -> SpanModel {
        SpanModel { text: self.text@, style: self.style }
    }
}

impl View for Line {
    type V = Seq<SpanModel>;

    open spec fn view(&self) -> Seq<SpanModel> {
        self.spans@.map_values(|s: Span| s@)
    }
}

/// Lines, by their texts.
pub open spec fn line_models(lines: Seq<Line>) -> Seq<Seq<SpanModel>> {
    lines.map_values(|l: Line| l@)
}

/// Text as it is.
pub open spec fn plain(text: Seq<char>) -> SpanModel {
    SpanModel { text, style: Style { color: None, bold: false } }
}

/// Bold text.
pub open spec fn bold(text: Seq<char>) -> SpanModel {
    SpanModel { text, style: Style { color: None, bold: true } }
}

/// Colored text.
pub open spec fn colored(text: Seq<char>, color: Color) -> SpanModel {
    SpanModel { text, style: Style { color: Some(color), bold: false } }
}

/// Bold colored text.
pub open spec fn bold_colored(text: Seq<char>, color: Color) -> SpanModel {
    SpanModel { text, style: Style { color: Some(color), bold: true } }
}

fn span(text: &str, color: Option<Color>, bold: bool) -> (s: Span)
    ensures
        s@ == (SpanModel { text: text@, style: Style { color, bold } }),
{
    Span { text: owned(text), style: Style { color, bold } }
}

fn line_of_one(first: Span) -> (line: Line)
    ensures
        line@ == seq![first@],
{
    let mut spans: Vec<Span> = Vec::new();
    spans.push(first);
    let line = Line { spans };
    assert(line@ =~= seq![first@]);
    line
}

fn line_of_two(first: Span, second: Span) -> (line: Line)
    ensures
        line@ == seq![first@, second@],
{
    let mut spans: Vec<Span> = Vec::new();
    spans.push(first);
    spans.push(second);
    let line = Line { spans };
    assert(line@ =~= seq![first@, second@]);
    line
}

// ── Actions ──────────────────────────────────────────────────────────────────

/// The actions delete the resource or forget it.
pub open spec fn removes(actions: Seq<Action>) -> bool {
    actions.contains(Action::Delete) || actions.contains(Action::Forget)
}

/// The color of a change: magenta to replace, red to delete, green to create, yellow to update,
/// cyan to read, gray otherwise.
pub open spec fn color_of(actions: Seq<Action>) -> Color {
    let creates = actions.contains(Action::Create);
    if removes(actions) && creates {
        Color::Magenta
    } else if removes(actions) {
        Color::Red
    } else if creates {
        Color::Green
    } else if actions.contains(Action::Update) {
        Color::Yellow
    } else if actions.contains(Action::Read) {
        Color::Cyan
    } else {
        Color::DarkGray
    }
}

/// The sign of a change.
pub open spec fn sigil_of(actions: Seq<Action>) -> char {
    let creates = actions.contains(Action::Create);
    if removes(actions) && creates {
        '±'
    } else if removes(actions) {
        '-'
    } else if creates {
        '+'
    } else if actions.contains(Action::Update) {
        '~'
    } else {
        ' '
    }
}

/// The color of a change.
pub fn action_color(actions: &[Action]) -> (color: Color)
    ensures
        color == color_of(actions@),
{
    let deletes = has_action(actions, Action::Delete) || has_action(actions, Action::Forget);
    let creates = has_action(actions, Action::Create);
    match (deletes, creates) {
        (true, true) => Color::Magenta,
        (true, false) => Color::Red,
        (false, true) => Color::Green,
        (false, false) => if has_action(actions, Action::Update) {
            Color::Yellow
        } else if has_action(actions, Action::Read) {
            Color::Cyan
        } else {
            Color::DarkGray
        },
    }
}

/// The sign of a change.
pub fn action_sigil(actions: &[Action]) -> (sigil: char)
    ensures
        sigil == sigil_of(actions@),
{
    let deletes = has_action(actions, Action::Delete) || has_action(actions, Action::Forget);
    let creates = has_action(actions, Action::Create);
    match (deletes, creates) {
        (true, true) => '±',
        (true, false) => '-',
        (false, true) => '+',
        (false, false) => if has_action(actions, Action::Update) {
            '~'
        } else {
            ' '
        },
    }
}

/// Sign and color tell the same: each sign but the blank has its own color.
pub proof fn sigils_match_colors(actions: Seq<Action>)
    ensures
        sigil_of(actions) == '±' <==> color_of(actions) == Color::Magenta,
        sigil_of(actions) == '-' <==> color_of(actions) == Color::Red,
        sigil_of(actions) == '+' <==> color_of(actions) == Color::Green,
        sigil_of(actions) == '~' <==> color_of(actions) == Color::Yellow,
        sigil_of(actions) == ' ' <==> color_of(actions) == Color::Cyan || color_of(actions)
            == Color::DarkGray,
{
}

// ── State ────────────────────────────────────────────────────────────────────

/// What the browser shows, and which change is selected.
pub struct App {
    plan: Plan,
    graph: ImpactGraph,
    selected: Option<usize>,
}

/// A key, as far as the browser tells keys apart.
#[derive(Debug, Clone, Copy, PartialEq, Eq, Structural)]
pub enum Key {
    Up,
    Down,
    Escape,
    Char(char),
    Other,
}

/// What a key asks for.
#[derive(Debug, Clone, Copy, PartialEq, Eq, Structural)]
pub enum Command {
    Quit,
    Previous,
    Next,
    Nothing,
}

/// What a key asks for.
pub open spec fn command_of(key: Key) -> Command {
    match key {
        Key::Escape => Command::Quit,
        Key::Up => Command::Previous,
        Key::Down => Command::Next,
        Key::Char(c) => if c == 'q' {
            Command::Quit
        } else if c == 'k' {
            Command::Previous
        } else if c == 'j' {
            Command::Next
        } else {
            Command::Nothing
        },
        Key::Other => Command::Nothing,
    }
}

/// What a key asks for.
pub fn key_command(key: Key) -> (command: Command)
    ensures
        command == command_of(key),
{
    match key {
        Key::Escape => Command::Quit,
        Key::Up => Command::Previous,
        Key::Down => Command::Next,
        Key::Char(c) => if c == 'q' {
            Command::Quit
        } else if c == 'k' {
            Command::Previous
        } else if c == 'j' {
            Command::Next
        } else {
            Command::Nothing
        },
        Key::Other => Command::Nothing,
    }
}

/// The selection one further down, round the end.
pub open spec fn next_of(selected: Option<usize>, len: nat) -> Option<usize> {
    if len == 0 {
        selected
    } else {
        match selected {
            Some(i) => Some(((i + 1) % len as int) as usize),
            None => Some(0),
        }
    }
}

/// The selection one further up, round the beginning.
pub open spec fn previous_of(selected: Option<usize>, len: nat) -> Option<usize> {
    if len == 0 {
        selected
    } else {
        match selected {
            Some(i) => if i == 0 {
                Some((len - 1) as usize)
            } else {
                Some((i - 1) as usize)
            },
            None => Some(0),
        }
    }
}

/// The selection is one of `len` changes; without changes nothing is selected.
pub open spec fn selection_fits(selected: Option<usize>, len: nat) -> bool {
    match selected {
        Some(i) => i < len,
        None => len == 0,
    }
}

/// The number of changes that do something.
pub open spec fn active_count(changes: Seq<ResourceChange>) -> nat
    decreases changes.len(),
{
    if changes.len() == 0 {
        0
    } else if changes.last().change.actions@ != seq![Action::NoOp] {
        active_count(changes.drop_last()) + 1
    } else {
        active_count(changes.drop_last())
    }
}

/// The title, and how many resources, changes and drifted resources there are.
pub open spec fn header_model(total: nat, active: nat, drift: nat) -> Seq<Seq<SpanModel>> {
    seq![
        seq![bold_colored(" eia  Enterprise Impact Analyzer"@, Color::White)],
        seq![
            plain("  "@),
            colored(decimal(total) + " resource(s)"@, Color::White),
            colored("  ·  "@, Color::DarkGray),
            colored(decimal(active) + " change(s)"@, Color::Yellow),
            colored("  ·  "@, Color::DarkGray),
            colored(
                decimal(drift) + " drift(s)"@,
                if drift > 0 {
                    Color::Red
                } else {
                    Color::Green
                },
            ),
        ],
    ]
}

/// The row of a change: its sign and its address, in its color.
pub open spec fn row_model(rc: ResourceChange) -> Seq<SpanModel> {
    let actions = rc.change.actions@;
    seq![
        colored(" "@ + seq![sigil_of(actions)] + " "@, color_of(actions)),
        colored(rc.address@, color_of(actions)),
    ]
}

/// A text, or a dash if there is none.
pub open spec fn or_dash(text: Option<Seq<char>>) -> Seq<char> {
    match text {
        Some(t) => t,
        None => "—"@,
    }
}

/// The lines that tell which resources a change hits.
pub open spec fn radius_model(affected: Seq<Seq<char>>) -> Seq<Seq<SpanModel>> {
    if affected.len() == 0 {
        seq![seq![colored("  No downstream dependencies."@, Color::DarkGray)]]
    } else {
        affected.map_values(|a: Seq<char>| seq![colored("  ↳ "@, Color::Yellow), plain(a)])
    }
}

/// The details of a change, and what it hits.
pub open spec fn detail_model(rc: ResourceChange, affected: Seq<Seq<char>>) -> Seq<
    Seq<SpanModel>,
> {
    let actions = rc.change.actions@;
    seq![
        seq![bold("Address   "@), plain(rc.address@)],
        seq![bold("Type      "@), plain(or_dash(opt_text(rc.resource_type)))],
        seq![bold("Provider  "@), plain(or_dash(opt_text(rc.provider_name)))],
        seq![
            bold("Action    "@),
            bold_colored(joined_words(actions, " + "@), color_of(actions)),
        ],
        Seq::empty(),
        seq![
            bold_colored(
                "Blast radius  ("@ + decimal(affected.len()) + " affected)"@,
                if affected.len() == 0 {
                    Color::Green
                } else {
                    Color::Yellow
                },
            ),
        ],
    ] + radius_model(affected)
}

/// What a change of `target` hits in the graph, sorted and each once.
pub open spec fn is_radius(g: GraphModel, target: Seq<char>, affected: Seq<Seq<char>>) -> bool {
    &&& is_sorted(affected)
    &&& affected.no_duplicates()
    &&& forall|a: Seq<char>| #[trigger] affected.contains(a) <==> is_hit(g, target, a)
}

/// Shown in place of details where the plan has no changes.
pub const NO_RESOURCES: &'static str = "No resources in this plan.";

/// The last line of the screen.
pub const FOOTER: &'static str = "  ↑ ↓  or  j k   Navigate    q / Esc   Quit";

fn text_or_dash(text: &Option<String>) -> (r: String)
    ensures
        r@ == or_dash(opt_text(*text)),
{
    match text {
        Some(t) => t.clone(),
        None => owned("—"),
    }
}

/// The details of a change, and what it hits.
pub fn details_of(rc: &ResourceChange, affected: &Vec<String>) -> (lines: Vec<Line>)
    ensures
        line_models(lines@) == detail_model(*rc, texts(affected@)),
{
    let actions = rc.change.actions.as_slice();
    let color = action_color(actions);
    let words = join_actions(actions, " + ");
    let mut lines: Vec<Line> = Vec::new();
    lines.push(line_of_two(span("Address   ", None, true), span(rc.address.as_str(), None, false)));
    lines.push(
        line_of_two(
            span("Type      ", None, true),
            span(text_or_dash(&rc.resource_type).as_str(), None, false),
        ),
    );
    lines.push(
        line_of_two(
            span("Provider  ", None, true),
            span(text_or_dash(&rc.provider_name).as_str(), None, false),
        ),
    );
    lines.push(
        line_of_two(span("Action    ", None, true), span(words.as_str(), Some(color), true)),
    );
    let blank = Line { spans: Vec::new() };
    assert(blank@ =~= Seq::empty());
    lines.push(blank);
    let mut title = owned("Blast radius  (");
    title.append(decimal_text(affected.len() as u64).as_str());
    title.append(" affected)");
    let title_color = if affected.len() == 0 {
        Color::Green
    } else {
        Color::Yellow
    };
    lines.push(line_of_one(span(title.as_str(), Some(title_color), true)));
    let ghost all = detail_model(*rc, texts(affected@));
    assert forall|i: int| 0 <= i < 6 implies (#[trigger] lines@[i])@ == all[i] by {}
    if affected.len() == 0 {
        lines.push(
            line_of_one(span("  No downstream dependencies.", Some(Color::DarkGray), false)),
        );
        assert(lines@[6]@ == all[6]);
    } else {
        let mut k: usize = 0;
        while k < affected.len()
            invariant
                k <= affected@.len(),
                affected@.len() > 0,
                all == detail_model(*rc, texts(affected@)),
                lines@.len() == k + 6,
                forall|i: int| 0 <= i < k + 6 ==> (#[trigger] lines@[i])@ == all[i],
            decreases affected@.len() - k,
        {
            let line = line_of_two(
                span("  ↳ ", Some(Color::Yellow), false),
                span(affected[k].as_str(), None, false),
            );
            assert(line@ == all[k + 6]);
            lines.push(line);
            k += 1;
        }
    }
    assert(line_models(lines@) =~= all);
    lines
}

impl App {
    pub closed spec fn plan(self) -> Plan {
        self.plan
    }

    pub closed spec fn graph(self) -> GraphModel {
        self.graph@
    }

    pub closed spec fn selection(self) -> Option<usize> {
        self.selected
    }

    /// The graph is sound, and the selection is one of the changes.
    pub closed spec fn wf(self) -> bool {
        self.graph.wf() && selection_fits(self.selected, self.plan.resource_changes@.len())
    }

    /// The first change is selected, if there is one.
    pub fn new(plan: Plan, graph: ImpactGraph) -> (app: App)
        requires
            graph.wf(),
        ensures
            app.wf(),
            app.plan() == plan,
            app.graph() == graph@,
            app.selection() == (if plan.resource_changes@.len() > 0 {
                Some(0usize)
            } else {
                None
            }),
    {
        let selected = if plan.resource_changes.len() > 0 {
            Some(0)
        } else {
            None
        };
        App { plan, graph, selected }
    }

    /// Which change is selected.
    pub fn selected(&self) -> (selected: Option<usize>)
        requires
            self.wf(),
        ensures
            selected == self.selection(),
            selection_fits(selected, self.plan().resource_changes@.len()),
    {
        self.selected
    }

    /// Selects the next change, after the last one the first.
    pub fn select_next(&mut self)
        requires
            old(self).wf(),
        ensures
            final(self).wf(),
            final(self).plan() == old(self).plan(),
            final(self).graph() == old(self).graph(),
            final(self).selection() == next_of(
                old(self).selection(),
                old(self).plan().resource_changes@.len(),
            ),
    {
        let len = self.plan.resource_changes.len();
        if len == 0 {
            return;
        }
        let next = match self.selected {
            Some(i) => (i + 1) % len,
            None => 0,
        };
        self.selected = Some(next);
    }

    /// Selects the previous change, before the first one the last.
    pub fn select_prev(&mut self)
        requires
            old(self).wf(),
        ensures
            final(self).wf(),
            final(self).plan() == old(self).plan(),
            final(self).graph() == old(self).graph(),
            final(self).selection() == previous_of(
                old(self).selection(),
                old(self).plan().resource_changes@.len(),
            ),
    {
        let len = self.plan.resource_changes.len();
        if len == 0 {
            return;
        }
        let previous = match self.selected {
            Some(i) => if i == 0 {
                len - 1
            } else {
                i - 1
            },
            None => 0,
        };
        self.selected = Some(previous);
    }

    /// Answers a key event; says whether to quit. Only a key that goes down counts.
    pub fn handle_key(&mut self, key: Key, pressed: bool) -> (quit: bool)
        requires
            old(self).wf(),
        ensures
            final(self).wf(),
            final(self).plan() == old(self).plan(),
            final(self).graph() == old(self).graph(),
            quit == (pressed && command_of(key) == Command::Quit),
            final(self).selection() == (if pressed && command_of(key) == Command::Next {
                next_of(old(self).selection(), old(self).plan().resource_changes@.len())
            } else if pressed && command_of(key) == Command::Previous {
                previous_of(old(self).selection(), old(self).plan().resource_changes@.len())
            } else {
                old(self).selection()
            }),
    {
        if !pressed {
            return false;
        }
        match key_command(key) {
            Command::Quit => true,
            Command::Previous => {
                self.select_prev();
                false
            },
            Command::Next => {
                self.select_next();
                false
            },
            Command::Nothing => false,
        }
    }

    /// The lines at the top.
    pub fn header_lines(&self) -> (lines: Vec<Line>)
        ensures
            line_models(lines@) == header_model(
                self.plan().resource_changes@.len(),
                active_count(self.plan().resource_changes@),
                self.plan().resource_drift@.len(),
            ),
    {
        let changes = &self.plan.resource_changes;
        let mut active: usize = 0;
        let mut k: usize = 0;
        assert(changes@.take(0) =~= Seq::empty());
        while k < changes.len()
            invariant
                k <= changes@.len(),
                active <= k,
                active == active_count(changes@.take(k as int)),
            decreases changes@.len() - k,
        {
            assert(changes@.take(k + 1).drop_last() =~= changes@.take(k as int));
            if !changes[k].change.is_noop() {
                active += 1;
            }
            k += 1;
        }
        assert(changes@.take(k as int) =~= changes@);
        let drift = self.plan.resource_drift.len();
        let mut total_text = decimal_text(changes.len() as u64);
        total_text.append(" resource(s)");
        let mut active_text = decimal_text(active as u64);
        active_text.append(" change(s)");
        let mut drift_text = decimal_text(drift as u64);
        drift_text.append(" drift(s)");
        let drift_color = if drift > 0 {
            Color::Red
        } else {
            Color::Green
        };
        let mut spans: Vec<Span> = Vec::new();
        spans.push(span("  ", None, false));
        spans.push(span(total_text.as_str(), Some(Color::White), false));
        spans.push(span("  ·  ", Some(Color::DarkGray), false));
        spans.push(span(active_text.as_str(), Some(Color::Yellow), false));
        spans.push(span("  ·  ", Some(Color::DarkGray), false));
        spans.push(span(drift_text.as_str(), Some(drift_color), false));
        let counts = Line { spans };
        let mut lines: Vec<Line> = Vec::new();
        lines.push(
            line_of_one(span(" eia  Enterprise Impact Analyzer", Some(Color::White), true)),
        );
        lines.push(counts);
        proof {
            let all = header_model(
                changes@.len(),
                active_count(changes@),
                self.plan.resource_drift@.len(),
            );
            assert(counts@ =~= all[1]);
            assert(line_models(lines@) =~= all);
        }
        lines
    }

    /// The rows of the list, one for each change.
    pub fn list_rows(&self) -> (rows: Vec<Line>)
        ensures
            line_models(rows@) == self.plan().resource_changes@.map_values(
                |rc: ResourceChange| row_model(rc),
            ),
    {
        let changes = &self.plan.resource_changes;
        let mut rows: Vec<Line> = Vec::new();
        let ghost all = changes@.map_values(|rc: ResourceChange| row_model(rc));
        let mut k: usize = 0;
        while k < changes.len()
            invariant
                k <= changes@.len(),
                all == changes@.map_values(|rc: ResourceChange| row_model(rc)),
                rows@.len() == k,
                forall|i: int| 0 <= i < k ==> (#[trigger] rows@[i])@ == all[i],
            decreases changes@.len() - k,
        {
            let rc = &changes[k];
            let actions = rc.change.actions.as_slice();
            let color = action_color(actions);
            let sigil = action_sigil(actions);
            let mut mark = owned(" ");
            mark.push(sigil);
            mark.append(" ");
            assert(mark@ =~= " "@ + seq![sigil] + " "@);
            let row = line_of_two(
                span(mark.as_str(), Some(color), false),
                span(rc.address.as_str(), Some(color), false),
            );
            assert(row@ == all[k as int]);
            rows.push(row);
            k += 1;
        }
        assert(line_models(rows@) =~= all);
        rows
    }

    /// The details of the selected change and what it hits, computed anew; nothing where the plan
    /// has no changes.
    pub fn detail_lines(&self) -> (lines: Option<Vec<Line>>)
        requires
            self.wf(),
        ensures
            match self.selection() {
                None => lines is None,
                Some(i) => {
                    let rc = self.plan().resource_changes@[i as int];
                    lines matches Some(shown) && exists|affected: Seq<Seq<char>>|
                        #![trigger is_radius(self.graph(), rc.address@, affected)]
                        is_radius(self.graph(), rc.address@, affected) && line_models(shown@)
                            == detail_model(rc, affected)
                },
            },
    {
        match self.selected {
            None => None,
            Some(i) => {
                let rc = &self.plan.resource_changes[i];
                let affected = sorted_blast(&self.graph, rc.address.as_str());
                assert(is_radius(self.graph(), rc.address@, texts(affected@)));
                Some(details_of(rc, &affected))
            },
        }
    }
}

// ── What holds of the selection ──────────────────────────────────────────────

/// Moving keeps the selection on a change.
pub proof fn moves_keep_selection(selected: Option<usize>, len: nat)
    requires
        selection_fits(selected, len),
        len <= usize::MAX,
    ensures
        selection_fits(next_of(selected, len), len),
        selection_fits(previous_of(selected, len), len),
{
}

/// Moving down and up again, or up and down again, leads back.
pub proof fn moves_undo_each_other(selected: Option<usize>, len: nat)
    requires
        selection_fits(selected, len),
        len <= usize::MAX,
    ensures
        previous_of(next_of(selected, len), len) == selected,
        next_of(previous_of(selected, len), len) == selected,
{
    if let Some(i) = selected {
        if i + 1 < len {
            vstd::arithmetic::div_mod::lemma_small_mod((i + 1) as nat, len);
        }
        vstd::arithmetic::div_mod::lemma_small_mod(i as nat, len);
        vstd::arithmetic::div_mod::lemma_mod_self_0(len as int);
    }
}

/// Moving down goes to the change below, from the last one to the first; moving up goes to the one
/// above, from the first one to the last. Without a selection, either goes to the first change;
/// without changes, neither goes anywhere.
pub proof fn moves_go_one_step(selected: Option<usize>, len: nat, i: usize)
    requires
        len <= usize::MAX,
        i < len || len == 0,
    ensures
        i + 1 < len ==> next_of(Some(i), len) == Some((i + 1) as usize),
        i + 1 == len ==> next_of(Some(i), len) == Some(0usize),
        0 < i < len ==> previous_of(Some(i), len) == Some((i - 1) as usize),
        len > 0 ==> previous_of(Some(0), len) == Some((len - 1) as usize),
        len > 0 ==> next_of(None, len) == Some(0usize) && previous_of(None, len) == Some(0usize),
        len == 0 ==> next_of(selected, len) == selected && previous_of(selected, len) == selected,
{
    if i + 1 < len {
        vstd::arithmetic::div_mod::lemma_small_mod((i + 1) as nat, len);
    }
    if len > 0 {
        vstd::arithmetic::div_mod::lemma_mod_self_0(len as int);
    }
}

/// Letters and arrows ask for the same, and no other key asks for anything.
pub proof fn keys_ask_for_what_they_say(c: char)
    ensures
        command_of(Key::Char('q')) == Command::Quit && command_of(Key::Escape) == Command::Quit,
        command_of(Key::Char('k')) == Command::Previous && command_of(Key::Up)
            == Command::Previous,
        command_of(Key::Char('j')) == Command::Next && command_of(Key::Down) == Command::Next,
        c != 'q' && c != 'k' && c != 'j' ==> command_of(Key::Char(c)) == Command::Nothing,
        command_of(Key::Other) == Command::Nothing,
{
}

// ── What holds of the panels ─────────────────────────────────────────────────

/// Signs and colors are those of the legend: `+` green to create, `~` yellow to update, `-` red to
/// delete or forget, `±` magenta to replace, cyan to read, gray to do nothing. It does not matter in
/// which order the actions stand; no-ops add nothing; and updates and reads add nothing to actions
/// that create or remove, nor reads to updates.
pub proof fn signs_follow_the_legend(actions: Seq<Action>, more: Seq<Action>)
    ensures
        sigil_of(seq![Action::Create]) == '+' && color_of(seq![Action::Create]) == Color::Green,
        sigil_of(seq![Action::Update]) == '~' && color_of(seq![Action::Update]) == Color::Yellow,
        sigil_of(seq![Action::Delete]) == '-' && color_of(seq![Action::Delete]) == Color::Red,
        sigil_of(seq![Action::Delete, Action::Create]) == '±' && color_of(
            seq![Action::Delete, Action::Create],
        ) == Color::Magenta,
        sigil_of(seq![Action::Read]) == ' ' && color_of(seq![Action::Read]) == Color::Cyan,
        sigil_of(Seq::empty()) == ' ' && color_of(Seq::empty()) == Color::DarkGray,
        sigil_of(actions + more) == sigil_of(more + actions) && color_of(actions + more)
            == color_of(more + actions),
        sigil_of(actions.push(Action::NoOp)) == sigil_of(actions) && color_of(
            actions.push(Action::NoOp),
        ) == color_of(actions),
        sigil_of(actions.push(Action::Forget)) == sigil_of(actions.push(Action::Delete))
            && color_of(actions.push(Action::Forget)) == color_of(actions.push(Action::Delete)),
        actions.contains(Action::Create) || actions.contains(Action::Delete) ==> {
            &&& sigil_of(actions.push(Action::Update)) == sigil_of(actions)
            &&& color_of(actions.push(Action::Update)) == color_of(actions)
            &&& sigil_of(actions.push(Action::Read)) == sigil_of(actions)
            &&& color_of(actions.push(Action::Read)) == color_of(actions)
        },
        actions.contains(Action::Update) ==> sigil_of(actions.push(Action::Read)) == sigil_of(
            actions,
        ) && color_of(actions.push(Action::Read)) == color_of(actions),
        actions.contains(Action::Delete) ==> color_of(actions.push(Action::Create))
            == Color::Magenta,
{
    let one = |a: Action| seq![a];
    assert forall|a: Action, x: Action| #[trigger] one(a).contains(x) <==> x == a by {
        assert(one(a)[0] == a);
    }
    assert(one(Action::Create) == seq![Action::Create]);
    assert(one(Action::Update) == seq![Action::Update]);
    assert(one(Action::Delete) == seq![Action::Delete]);
    assert(one(Action::Read) == seq![Action::Read]);
    let replace = seq![Action::Delete, Action::Create];
    assert(replace[0] == Action::Delete && replace[1] == Action::Create);
    assert forall|x: Action| #[trigger]
        (actions + more).contains(x) <==> (more + actions).contains(x) by {
        joined_holds(actions, more, x);
        joined_holds(more, actions, x);
    }
    assert((actions + more).contains(Action::Create) == (more + actions).contains(Action::Create));
    assert((actions + more).contains(Action::Delete) == (more + actions).contains(Action::Delete));
    assert((actions + more).contains(Action::Forget) == (more + actions).contains(Action::Forget));
    assert((actions + more).contains(Action::Update) == (more + actions).contains(Action::Update));
    assert((actions + more).contains(Action::Read) == (more + actions).contains(Action::Read));
    assert forall|y: Action, x: Action| #[trigger]
        actions.push(y).contains(x) <==> actions.contains(x) || x == y by {
        joined_holds(actions, seq![y], x);
        assert(actions.push(y) =~= actions + seq![y]);
        assert(seq![y][0] == y);
    }
}

/// The row of a change shows its sign and its address, both in its color, and nothing else of it.
pub proof fn rows_show_the_change(rc: ResourceChange)
    ensures
        row_model(rc).len() == 2,
        row_model(rc)[0].text == seq![' ', sigil_of(rc.change.actions@), ' '],
        row_model(rc)[1].text == rc.address@,
        row_model(rc)[0].style.color == Some(color_of(rc.change.actions@)),
        row_model(rc)[1].style.color == Some(color_of(rc.change.actions@)),
        !row_model(rc)[0].style.bold && !row_model(rc)[1].style.bold,
{
    reveal_strlit(" ");
    let actions = rc.change.actions@;
    assert(" "@ + seq![sigil_of(actions)] + " "@ =~= seq![' ', sigil_of(actions), ' ']);
}

/// The number of active changes is that of the changes whose actions are not a no-op alone.
pub proof fn active_changes_do_something(changes: Seq<ResourceChange>)
    ensures
        active_count(changes) == changes.filter(
            |rc: ResourceChange| rc.change.actions@ != seq![Action::NoOp],
        ).len(),
    decreases changes.len(),
{
    reveal(Seq::filter);
    if changes.len() > 0 {
        active_changes_do_something(changes.drop_last());
    }
}

/// The text of a line.
pub open spec fn line_text(line: Seq<SpanModel>) -> Seq<char> {
    line.map_values(|s: SpanModel| s.text).flatten()
}

/// The header tells how many resources, changes and drifted resources there are, in this order;
/// drift is red where there is some.
pub proof fn headers_tell_the_counts(total: nat, active: nat, drift: nat)
    ensures
        header_model(total, active, drift).len() == 2,
        line_text(header_model(total, active, drift)[0]) == " eia  Enterprise Impact Analyzer"@,
        line_text(header_model(total, active, drift)[1]) == "  "@ + decimal(total)
            + " resource(s)"@ + "  ·  "@ + decimal(active) + " change(s)"@ + "  ·  "@ + decimal(
            drift,
        ) + " drift(s)"@,
        header_model(total, active, drift)[1].last().style.color == Some(Color::Red) <==> drift > 0,
{
    let head = header_model(total, active, drift);
    let b = head[1].map_values(|s: SpanModel| s.text);
    reveal_with_fuel(Seq::flatten, 8);
    assert(line_text(head[0]) =~= " eia  Enterprise Impact Analyzer"@);
    assert(b.drop_first()[0] == b[1]);
    assert(b.drop_first().drop_first()[0] == b[2]);
    assert(line_text(head[1]) =~= "  "@ + decimal(total) + " resource(s)"@ + "  ·  "@ + decimal(
        active,
    ) + " change(s)"@ + "  ·  "@ + decimal(drift) + " drift(s)"@);
}

/// Some line starts with the label and goes on with the text, and no line has the label and another
/// text.
pub open spec fn tells(lines: Seq<Seq<SpanModel>>, label: Seq<char>, text: Seq<char>) -> bool {
    &&& exists|i: int|
        0 <= i < lines.len() && (#[trigger] lines[i]).len() == 2 && lines[i][0].text == label
            && lines[i][1].text == text
    &&& forall|i: int|
        0 <= i < lines.len() && (#[trigger] lines[i]).len() == 2 && lines[i][0].text == label
            ==> lines[i][1].text == text
}

/// The details tell the address, the type and the provider of the change, each under its own label
/// and with a dash for what is not known, and the words of its actions.
pub proof fn details_tell_the_change(rc: ResourceChange, affected: Seq<Seq<char>>)
    ensures
        tells(detail_model(rc, affected), "Address   "@, rc.address@),
        rc.resource_type is Some ==> tells(
            detail_model(rc, affected),
            "Type      "@,
            rc.resource_type->0@,
        ),
        rc.resource_type is None ==> tells(detail_model(rc, affected), "Type      "@, "—"@),
        rc.provider_name is Some ==> tells(
            detail_model(rc, affected),
            "Provider  "@,
            rc.provider_name->0@,
        ),
        rc.provider_name is None ==> tells(detail_model(rc, affected), "Provider  "@, "—"@),
        tells(
            detail_model(rc, affected),
            "Action    "@,
            joined_words(rc.change.actions@, " + "@),
        ),
{
    let lines = detail_model(rc, affected);
    reveal_strlit("Address   ");
    reveal_strlit("Type      ");
    reveal_strlit("Provider  ");
    reveal_strlit("Action    ");
    reveal_strlit("  ↳ ");
    assert("Address   "@[1] == 'd' && "Type      "@[1] == 'y' && "Provider  "@[1] == 'r');
    assert("Action    "@[1] == 'c' && "  ↳ "@[1] == ' ');
    assert(lines[0][0].text == "Address   "@);
    assert(lines[1][0].text == "Type      "@);
    assert(lines[2][0].text == "Provider  "@);
    assert(lines[3][0].text == "Action    "@);
    assert(lines[4].len() == 0 && lines[5].len() == 1);
    assert forall|i: int| 6 <= i < lines.len() implies (#[trigger] lines[i]).len() == 1
        || lines[i][0].text == "  ↳ "@ by {
        assert(lines[i] == radius_model(affected)[i - 6]);
    }
}

/// The details tell how many resources the change hits, and each of them on a line of its own, in
/// order; where there are none they say so.
pub proof fn details_tell_what_is_hit(rc: ResourceChange, affected: Seq<Seq<char>>, k: int)
    ensures
        line_text(detail_model(rc, affected)[5]) == "Blast radius  ("@ + decimal(affected.len())
            + " affected)"@,
        affected.len() > 0 ==> detail_model(rc, affected).len() == 6 + affected.len(),
        0 <= k < affected.len() ==> line_text(detail_model(rc, affected)[6 + k]) == "  ↳ "@
            + affected[k],
        affected.len() == 0 ==> detail_model(rc, affected).len() == 7 && line_text(
            detail_model(rc, affected)[6],
        ) == "  No downstream dependencies."@,
{
    let lines = detail_model(rc, affected);
    reveal_with_fuel(Seq::flatten, 3);
    let title = lines[5].map_values(|s: SpanModel| s.text);
    assert(line_text(lines[5]) =~= title[0]);
    if affected.len() == 0 {
        assert(lines[6] == radius_model(affected)[0]);
        let text = lines[6].map_values(|s: SpanModel| s.text);
        assert(line_text(lines[6]) =~= text[0]);
    } else if 0 <= k < affected.len() {
        assert(lines[6 + k] == radius_model(affected)[k]);
        let text = lines[6 + k].map_values(|s: SpanModel| s.text);
        assert(text.drop_first()[0] == text[1]);
        assert(line_text(lines[6 + k]) =~= text[0] + text[1]);
    }
}

/// Two changes with the same address, type, provider and actions show the same details and the same
/// row, whatever else sets them apart.
pub proof fn details_show_nothing_else(
    a: ResourceChange,
    b: ResourceChange,
    affected: Seq<Seq<char>>,
)
    requires
        a.address == b.address,
        a.resource_type == b.resource_type,
        a.provider_name == b.provider_name,
        a.change.actions == b.change.actions,
    ensures
        detail_model(a, affected) == detail_model(b, affected),
        row_model(a) == row_model(b),
{
}

/// What the details list as hit is whatever depends on the change's address, directly or by way of
/// others, each once, in the order of a dictionary, and never the address itself.
pub proof fn details_list_what_depends(
    g: GraphModel,
    target: Seq<char>,
    affected: Seq<Seq<char>>,
    a: Seq<char>,
)
    requires
        g.valid(),
        is_radius(g, target, affected),
    ensures
        affected.contains(a) <==> a != target && exists|p: Seq<Seq<char>>| #[trigger]
            is_dependency_walk(g, p) && p[0] == a && p.last() == target && p.len() > 1,
        affected.no_duplicates(),
        forall|i: int, j: int|
            0 <= i < j < affected.len() ==> text_le(#[trigger] affected[i], #[trigger] affected[j]),
        !affected.contains(target),
{
    hits_are_walks(g, target, a);
    hits_are_walks(g, target, target);
}

/// The details come in order: address, type, provider and actions, each behind its bold label, an
/// empty line, and then the blast radius. The actions are bold in the color of the change; the title
/// of the blast radius is bold, green where nothing is hit and yellow otherwise.
pub proof fn details_come_in_order(rc: ResourceChange, affected: Seq<Seq<char>>, k: int)
    ensures
        ({
            let lines = detail_model(rc, affected);
            let none = Style { color: None, bold: false };
            let label = Style { color: None, bold: true };
            &&& lines[0][0].text == "Address   "@ && lines[1][0].text == "Type      "@
            &&& lines[2][0].text == "Provider  "@ && lines[3][0].text == "Action    "@
            &&& lines[0][0].style == label && lines[1][0].style == label
            &&& lines[2][0].style == label && lines[3][0].style == label
            &&& lines[0].len() == 2 && lines[1].len() == 2 && lines[2].len() == 2
            &&& lines[3].len() == 2 && lines[4].len() == 0 && lines[5].len() == 1
            &&& lines[0][1].style == none && lines[1][1].style == none && lines[2][1].style == none
            &&& lines[3][1].style == (Style {
                color: Some(color_of(rc.change.actions@)),
                bold: true,
            })
            &&& affected.len() == 0 ==> lines[5][0].style == (Style {
                color: Some(Color::Green),
                bold: true,
            }) && lines[6].len() == 1 && lines[6][0].style == (Style {
                color: Some(Color::DarkGray),
                bold: false,
            })
            &&& affected.len() > 0 ==> lines[5][0].style == (Style {
                color: Some(Color::Yellow),
                bold: true,
            })
            &&& 0 <= k < affected.len() ==> lines[6 + k].len() == 2 && lines[6 + k][0].style == (
            Style { color: Some(Color::Yellow), bold: false }) && lines[6 + k][1].style == none
                && lines[6 + k][1].text == affected[k]
        }),
{
    let lines = detail_model(rc, affected);
    if affected.len() == 0 {
        assert(lines[6] == radius_model(affected)[0]);
    } else if 0 <= k < affected.len() {
        assert(lines[6 + k] == radius_model(affected)[k]);
    }
}

/// In the header the title is bold and white, resources are counted in white, changes in yellow, and
/// drift in red where there is some and in green where there is none.
pub proof fn headers_are_colored(total: nat, active: nat, drift: nat)
    ensures
        ({
            let head = header_model(total, active, drift);
            &&& head[0].len() == 1 && head[1].len() == 6
            &&& head[0][0].style == (Style { color: Some(Color::White), bold: true })
            &&& head[1][0].style == (Style { color: None, bold: false })
            &&& head[1][1].style == (Style { color: Some(Color::White), bold: false })
            &&& head[1][2].style == (Style { color: Some(Color::DarkGray), bold: false })
            &&& head[1][3].style == (Style { color: Some(Color::Yellow), bold: false })
            &&& head[1][4].style == (Style { color: Some(Color::DarkGray), bold: false })
            &&& drift > 0 ==> head[1][5].style == (Style { color: Some(Color::Red), bold: false })
            &&& drift == 0 ==> head[1][5].style == (Style {
                color: Some(Color::Green),
                bold: false,
            })
            &&& head[1][1].text == decimal(total) + " resource(s)"@
            &&& head[1][3].text == decimal(active) + " change(s)"@
            &&& head[1][5].text == decimal(drift) + " drift(s)"@
        }),
{
}

} // verus!
