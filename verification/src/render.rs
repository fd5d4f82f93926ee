//! The sidebar on the screen: a header, one row for each tab, and which tab a row
//! belongs to.

use vstd::prelude::*;

use crate::ansi::{
    columns_left, display_width, excess, fill_to_width, filled, law_cut_fits, paint, paint_badge,
    styled, truncate_to_width, truncated, width, PaletteColor,
};
use crate::status::{badge_of, label_of, AgentStatusKind};
use crate::text::{concat2, decimal, decimal_text, maybe_text, repeat_char, repeated, texts};

verus! {

/// How many columns there must be for the names of states.
pub const LABEL_COLS: usize = 18;

/// What a `TabLine` says.
pub struct TabLineView {
    pub position: usize,
    pub name: Seq<char>,
    pub active: bool,
    pub unread: bool,
    pub tracked_agents: usize,
    pub status: AgentStatusKind,
}

/// A tab as its row shows it.
#[derive(Clone, Debug)]
pub struct TabLine {
    pub position: usize,
    pub name: String,
    pub active: bool,
    pub unread: bool,
    pub tracked_agents: usize,
    pub status: AgentStatusKind,
}

impl View for TabLine {
    type V = TabLineView;

    open spec fn view(&self) -> TabLineView {
        TabLineView {
            position: self.position,
            name: self.name@,
            active: self.active,
            unread: self.unread,
            tracked_agents: self.tracked_agents,
            status: self.status,
        }
    }
}

/// What some tabs say.
pub open spec fn tab_line_views(tabs: Seq<TabLine>) -> Seq<TabLineView> {
    Seq::new(tabs.len(), |i: int| tabs[i]@)
}

/// The colours of the sidebar.
#[derive(Clone, Copy, Debug, PartialEq, Eq, Structural)]
pub struct SidebarColors {
    pub base_fg: PaletteColor,
    pub base_bg: PaletteColor,
    pub active_fg: PaletteColor,
    pub active_bg: PaletteColor,
    pub accent: PaletteColor,
}

/// What a `SidebarMode` says.
pub struct SidebarModeView {
    pub session_name: Option<Seq<char>>,
    pub colors: SidebarColors,
}

/// The name of the session, where it is known, and the colours.
#[derive(Clone, Debug)]
pub struct SidebarMode {
    pub session_name: Option<String>,
    pub colors: SidebarColors,
}

impl View for SidebarMode {
    type V = SidebarModeView;

    open spec fn view(&self) -> SidebarModeView {
        SidebarModeView { session_name: maybe_text(self.session_name), colors: self.colors }
    }
}

/// What a `Screen` says.
pub struct ScreenView {
    pub lines: Seq<Seq<char>>,
    pub clickable_rows: Seq<Option<usize>>,
}

/// Rows of the screen, and for each the position of the tab that a click on it
/// asks for.
#[derive(Clone, Debug)]
pub struct Screen {
    pub lines: Vec<String>,
    pub clickable_rows: Vec<Option<usize>>,
}

impl View for Screen {
    type V = ScreenView;

    open spec fn view(&self) -> ScreenView {
        ScreenView { lines: texts(self.lines@), clickable_rows: self.clickable_rows@ }
    }
}

// ---------------------------------------------------------------------------
// Models
// ---------------------------------------------------------------------------
/// The name of the session between spaces.
pub open spec fn header_text(mode: SidebarModeView) -> Seq<char> {
    let name = match mode.session_name {
        Some(name) => name,
        None => "zeldex"@,
    };
    " "@ + name + " "@
}

/// The state that a row shows: a tab that was not looked at since its agent asked
/// for attention waits.
pub open spec fn shown_kind(tab: TabLineView) -> AgentStatusKind {
    if tab.unread {
        AgentStatusKind::Waiting
    } else {
        tab.status
    }
}

/// The mark of the state, how many agents there are where there are several, and
/// the name of the state where there is room.
pub open spec fn row_suffix(tab: TabLineView, cols: usize) -> Seq<char> {
    let badge = if tab.unread {
        "●"@
    } else {
        badge_of(tab.status)
    };
    let count = if tab.tracked_agents > 1 {
        " "@ + decimal(tab.tracked_agents as nat)
    } else {
        Seq::empty()
    };
    let label = if cols >= LABEL_COLS {
        label_of(shown_kind(tab))
    } else {
        Seq::empty()
    };
    if label.len() == 0 {
        badge + count
    } else {
        badge + count + " "@ + label
    }
}

/// The mark of the active tab.
pub open spec fn row_prefix(tab: TabLineView) -> Seq<char> {
    if tab.active {
        "▌"@
    } else {
        " "@
    }
}

/// How many columns a row takes beside the name of its tab: prefix, number and
/// suffix, with three spaces.
pub open spec fn chrome_columns(prefix: nat, number: nat, suffix: nat) -> nat {
    prefix + 1 + number + 1 + suffix + 1
}

/// How many columns the row of a tab takes beside its name.
pub open spec fn chrome_width(tab: TabLineView, cols: usize) -> nat {
    chrome_columns(
        display_width(row_prefix(tab)),
        decimal((tab.position + 1) as nat).len(),
        display_width(row_suffix(tab, cols)),
    )
}

/// How many columns are left for the name of a tab: at least one.
pub open spec fn name_columns(cols: nat, chrome: nat) -> nat {
    if excess(cols, chrome) > 1 {
        excess(cols, chrome)
    } else {
        1
    }
}

/// The name of a tab, cut to the room that the rest of its row leaves, at least
/// one column.
pub open spec fn row_name(tab: TabLineView, cols: usize) -> Seq<char> {
    truncated(tab.name, name_columns(cols as nat, chrome_width(tab, cols)))
}

/// A row before it is cut: mark, number, name, and the suffix at the far end.
pub open spec fn row_line(tab: TabLineView, cols: usize) -> Seq<char> {
    let name = row_name(tab, cols);
    let padding = excess(cols as nat, chrome_width(tab, cols) + display_width(name));
    row_prefix(tab) + " "@ + decimal((tab.position + 1) as nat) + " "@ + name + repeated(
        ' ',
        padding,
    ) + " "@ + row_suffix(tab, cols)
}

/// A row in its colours.
pub open spec fn painted_row(tab: TabLineView, cols: usize, colors: SidebarColors) -> Seq<char> {
    let text = truncated(row_line(tab, cols), cols as nat);
    let row = if tab.active {
        styled(text, colors.active_fg, Some(colors.active_bg), true)
    } else {
        styled(text, colors.base_fg, Some(colors.base_bg), false)
    };
    if tab.unread || shown_kind(tab) is Waiting {
        styled(Seq::empty(), colors.accent, None, false) + row
    } else {
        row
    }
}

/// How many of some things have a row below the header.
pub open spec fn shown_count(count: nat, rows: usize) -> nat {
    if rows == 0 {
        0
    } else if count < rows {
        count
    } else {
        (rows - 1) as nat
    }
}

/// An empty row.
pub open spec fn blank_row(cols: usize, colors: SidebarColors) -> Seq<char> {
    styled(repeated(' ', cols as nat), colors.base_fg, Some(colors.base_bg), false)
}

/// The sidebar with its tabs.
pub open spec fn sidebar_screen(
    rows: usize,
    cols: usize,
    mode: SidebarModeView,
    tabs: Seq<TabLineView>,
) -> ScreenView {
    let shown = shown_count(tabs.len(), rows);
    let blank = excess(rows as nat, 1 + shown);
    let colors = mode.colors;
    let header = styled(
        truncated(header_text(mode), cols as nat),
        colors.base_fg,
        Some(colors.base_bg),
        true,
    );
    ScreenView {
        lines: seq![header] + Seq::new(shown, |i: int| painted_row(tabs[i], cols, colors)) + Seq::new(
            blank,
            |i: int| blank_row(cols, colors),
        ),
        clickable_rows: seq![None::<usize>] + Seq::new(shown, |i: int| Some(tabs[i].position))
            + Seq::new(blank, |i: int| None::<usize>),
    }
}

/// The sidebar with a notice in place of its tabs.
pub open spec fn notice_screen(
    rows: usize,
    cols: usize,
    mode: SidebarModeView,
    lines: Seq<Seq<char>>,
) -> ScreenView {
    let shown = shown_count(lines.len(), rows);
    let blank = excess(rows as nat, 1 + shown);
    ScreenView {
        lines: seq![filled(header_text(mode), cols as nat)] + Seq::new(
            shown,
            |i: int| filled(" "@ + lines[i], cols as nat),
        ) + Seq::new(blank, |i: int| repeated(' ', cols as nat)),
        clickable_rows: Seq::new(1 + shown + blank, |i: int| None::<usize>),
    }
}

// ---------------------------------------------------------------------------
// Rows
// ---------------------------------------------------------------------------
fn header_line(mode: &SidebarMode) -> (text: String)
    ensures
        text@ == header_text(mode@),
{
    let start = match &mode.session_name {
        Some(name) => concat2(" ", name.as_str()),
        None => concat2(" ", "zeldex"),
    };
    concat2(start.as_str(), " ")
}

fn suffix_of_row(tab: &TabLine, cols: usize) -> (suffix: String)
    ensures
        suffix@ == row_suffix(tab@, cols),
{
    let kind = if tab.unread {
        AgentStatusKind::Waiting
    } else {
        tab.status
    };
    let badge = if tab.unread {
        "●"
    } else {
        kind.badge()
    };
    let mut suffix = badge.to_owned();
    if tab.tracked_agents > 1 {
        let count = decimal_text(tab.tracked_agents as u64);
        suffix.append(" ");
        suffix.append(count.as_str());
    }
    let ghost mark = if tab.unread {
        "●"@
    } else {
        badge_of(tab.status)
    };
    let ghost counted = if tab.tracked_agents > 1 {
        " "@ + decimal(tab.tracked_agents as nat)
    } else {
        Seq::empty()
    };
    proof {
        assert(suffix@ =~= mark + counted);
    }
    let label = kind.label();
    if cols >= LABEL_COLS && !label.is_empty() {
        suffix.append(" ");
        suffix.append(label);
        proof {
            assert(suffix@ =~= mark + counted + " "@ + label@);
        }
    }
    suffix
}

/// How many columns a row takes beside the name of its tab.
pub fn columns_of_chrome(prefix: usize, number: usize, suffix: usize) -> (chrome: u128)
    ensures
        chrome == chrome_columns(prefix as nat, number as nat, suffix as nat),
        chrome <= 4 * (usize::MAX as u128),
{
    prefix as u128 + 1 + number as u128 + 1 + suffix as u128 + 1
}

/// How many columns are left for the name of a tab.
pub fn columns_for_name(cols: usize, chrome: u128) -> (columns: usize)
    ensures
        columns == name_columns(cols as nat, chrome as nat),
{
    let left = columns_left(cols, chrome);
    if left > 1 {
        left
    } else {
        1
    }
}

/// A row before it is cut.
pub fn render_row(tab: &TabLine, cols: usize) -> (line: String)
    requires
        tab.position < usize::MAX,
    ensures
        line@ == row_line(tab@, cols),
{
    let prefix = if tab.active {
        "▌"
    } else {
        " "
    };
    let suffix = suffix_of_row(tab, cols);
    let number = decimal_text((tab.position + 1) as u64);
    let chrome = columns_of_chrome(
        width(prefix),
        number.as_str().unicode_len(),
        width(suffix.as_str()),
    );
    let name = truncate_to_width(tab.name.as_str(), columns_for_name(cols, chrome));
    let taken: u128 = chrome + width(name.as_str()) as u128;
    let spaces = repeat_char(' ', columns_left(cols, taken));
    let mut line = prefix.to_owned();
    line.append(" ");
    line.append(number.as_str());
    line.append(" ");
    line.append(name.as_str());
    line.append(spaces.as_str());
    line.append(" ");
    line.append(suffix.as_str());
    line
}

/// A row in its colours. The text in it takes no more than `cols` columns.
pub fn paint_row(tab: &TabLine, cols: usize, colors: SidebarColors) -> (painted: String)
    requires
        tab.position < usize::MAX,
    ensures
        painted@ == painted_row(tab@, cols, colors),
        ({
            let text = truncated(row_line(tab@, cols), cols as nat);
            text.len() > 0 ==> display_width(text) <= cols
        }),
{
    let line = render_row(tab, cols);
    let text = truncate_to_width(line.as_str(), cols);
    let row = if tab.active {
        paint(text.as_str(), colors.active_fg, colors.active_bg, true)
    } else {
        paint(text.as_str(), colors.base_fg, colors.base_bg, false)
    };
    if tab.unread || tab.status == AgentStatusKind::Waiting {
        paint_badge(row.as_str(), colors.accent)
    } else {
        row
    }
}

// ---------------------------------------------------------------------------
// Screens
// ---------------------------------------------------------------------------
fn rows_below(count: usize, rows: usize) -> (shown: usize)
    ensures
        shown == shown_count(count as nat, rows),
{
    if rows == 0 {
        0
    } else if count < rows {
        count
    } else {
        rows - 1
    }
}

/// The sidebar with its tabs.
pub fn render_sidebar(rows: usize, cols: usize, mode: &SidebarMode, tabs: &[TabLine]) -> (screen:
    Screen)
    requires
        forall|i: int|
            0 <= i < shown_count(tabs@.len(), rows) ==> (#[trigger] tabs@[i]).position < usize::MAX,
    ensures
        screen@ == sidebar_screen(rows, cols, mode@, tab_line_views(tabs@)),
{
    let colors = mode.colors;
    let header = header_line(mode);
    let title = truncate_to_width(header.as_str(), cols);
    let mut lines: Vec<String> = Vec::new();
    let mut clickable_rows: Vec<Option<usize>> = Vec::new();
    lines.push(paint(title.as_str(), colors.base_fg, colors.base_bg, true));
    clickable_rows.push(None);
    let ghost views = tab_line_views(tabs@);
    let ghost head = texts(lines@);
    let ghost top = clickable_rows@;
    let shown = rows_below(tabs.len(), rows);
    let mut i: usize = 0;
    proof {
        assert(texts(lines@) =~= head + Seq::new(0, |k: int| painted_row(views[k], cols, colors)));
        assert(clickable_rows@ =~= top + Seq::new(0, |k: int| Some(views[k].position)));
    }
    while i < shown
        invariant
            i <= shown,
            shown == shown_count(tabs@.len(), rows),
            shown <= tabs@.len(),
            views == tab_line_views(tabs@),
            forall|k: int| 0 <= k < shown ==> (#[trigger] tabs@[k]).position < usize::MAX,
            texts(lines@) == head + Seq::new(
                i as nat,
                |k: int| painted_row(views[k], cols, colors),
            ),
            clickable_rows@ == top + Seq::new(i as nat, |k: int| Some(views[k].position)),
        decreases shown - i,
    {
        let ghost before = texts(lines@);
        let ghost rows_before = clickable_rows@;
        let tab = &tabs[i];
        lines.push(paint_row(tab, cols, colors));
        clickable_rows.push(Some(tab.position));
        proof {
            assert(texts(lines@) =~= before.push(painted_row(views[i as int], cols, colors)));
            assert(texts(lines@) =~= head + Seq::new(
                (i + 1) as nat,
                |k: int| painted_row(views[k], cols, colors),
            ));
            assert(clickable_rows@ =~= top + Seq::new(
                (i + 1) as nat,
                |k: int| Some(views[k].position),
            ));
        }
        i += 1;
    }
    let ghost body = texts(lines@);
    let ghost targets = clickable_rows@;
    let blanks: usize = if rows > shown + 1 {
        rows - shown - 1
    } else {
        0
    };
    let mut j: usize = 0;
    proof {
        assert(texts(lines@) =~= body + Seq::new(0, |k: int| blank_row(cols, colors)));
        assert(clickable_rows@ =~= targets + Seq::new(0, |k: int| None::<usize>));
    }
    while j < blanks
        invariant
            j <= blanks,
            texts(lines@) == body + Seq::new(j as nat, |k: int| blank_row(cols, colors)),
            clickable_rows@ == targets + Seq::new(j as nat, |k: int| None::<usize>),
        decreases blanks - j,
    {
        let ghost before = texts(lines@);
        let spaces = repeat_char(' ', cols);
        lines.push(paint(spaces.as_str(), colors.base_fg, colors.base_bg, false));
        clickable_rows.push(None);
        proof {
            assert(texts(lines@) =~= before.push(blank_row(cols, colors)));
            assert(texts(lines@) =~= body + Seq::new(
                (j + 1) as nat,
                |k: int| blank_row(cols, colors),
            ));
            assert(clickable_rows@ =~= targets + Seq::new((j + 1) as nat, |k: int| None::<usize>));
        }
        j += 1;
    }
    let screen = Screen { lines, clickable_rows };
    proof {
        let expected = sidebar_screen(rows, cols, mode@, views);
        assert(head =~= seq![
            styled(
                truncated(header_text(mode@), cols as nat),
                colors.base_fg,
                Some(colors.base_bg),
                true,
            ),
        ]);
        assert(screen@.lines =~= expected.lines);
        assert(screen@.clickable_rows =~= expected.clickable_rows);
    }
    screen
}

/// The sidebar with a notice in place of its tabs. Every row takes exactly `cols`
/// columns.
pub fn render_notice(rows: usize, cols: usize, mode: &SidebarMode, lines: &[String]) -> (screen:
    Screen)
    ensures
        screen@ == notice_screen(rows, cols, mode@, texts(lines@)),
        forall|i: int|
            0 <= i < screen@.lines.len() ==> display_width(#[trigger] screen@.lines[i]) == cols,
{
    let header = header_line(mode);
    let mut out: Vec<String> = Vec::new();
    let mut clickable_rows: Vec<Option<usize>> = Vec::new();
    out.push(fill_to_width(header.as_str(), cols));
    clickable_rows.push(None);
    let ghost views = texts(lines@);
    let ghost head = texts(out@);
    let shown = rows_below(lines.len(), rows);
    let mut i: usize = 0;
    proof {
        assert(texts(out@) =~= head + Seq::new(0, |k: int| filled(" "@ + views[k], cols as nat)));
        assert(clickable_rows@ =~= Seq::new(1, |k: int| None::<usize>));
    }
    while i < shown
        invariant
            i <= shown,
            shown == shown_count(lines@.len(), rows),
            shown <= lines@.len(),
            views == texts(lines@),
            texts(out@) == head + Seq::new(
                i as nat,
                |k: int| filled(" "@ + views[k], cols as nat),
            ),
            clickable_rows@ == Seq::new((1 + i) as nat, |k: int| None::<usize>),
            forall|k: int| 0 <= k < out@.len() ==> display_width((#[trigger] out@[k])@) == cols,
        decreases shown - i,
    {
        let ghost before = texts(out@);
        let line = concat2(" ", lines[i].as_str());
        out.push(fill_to_width(line.as_str(), cols));
        clickable_rows.push(None);
        proof {
            assert(texts(out@) =~= before.push(filled(" "@ + views[i as int], cols as nat)));
            assert(texts(out@) =~= head + Seq::new(
                (i + 1) as nat,
                |k: int| filled(" "@ + views[k], cols as nat),
            ));
            assert(clickable_rows@ =~= Seq::new((2 + i) as nat, |k: int| None::<usize>));
        }
        i += 1;
    }
    let ghost body = texts(out@);
    let blanks: usize = if rows > shown + 1 {
        rows - shown - 1
    } else {
        0
    };
    let mut j: usize = 0;
    proof {
        assert(texts(out@) =~= body + Seq::new(0, |k: int| repeated(' ', cols as nat)));
    }
    while j < blanks
        invariant
            j <= blanks,
            texts(out@) == body + Seq::new(j as nat, |k: int| repeated(' ', cols as nat)),
            clickable_rows@ == Seq::new((1 + shown + j) as nat, |k: int| None::<usize>),
            forall|k: int| 0 <= k < out@.len() ==> display_width((#[trigger] out@[k])@) == cols,
        decreases blanks - j,
    {
        let ghost before = texts(out@);
        proof {
            reveal_strlit("");
        }
        out.push(fill_to_width("", cols));
        clickable_rows.push(None);
        proof {
            assert(texts(out@) =~= before.push(repeated(' ', cols as nat)));
            assert(texts(out@) =~= body + Seq::new(
                (j + 1) as nat,
                |k: int| repeated(' ', cols as nat),
            ));
            assert(clickable_rows@ =~= Seq::new((2 + shown + j) as nat, |k: int| None::<usize>));
        }
        j += 1;
    }
    let screen = Screen { lines: out, clickable_rows };
    proof {
        let expected = notice_screen(rows, cols, mode@, views);
        assert(head =~= seq![filled(header_text(mode@), cols as nat)]);
        assert(screen@.lines =~= expected.lines);
        assert(screen@.clickable_rows =~= expected.clickable_rows);
    }
    screen
}

// ---------------------------------------------------------------------------
// Laws
// ---------------------------------------------------------------------------
/// A sidebar fills the screen exactly, and each row has a place in the list of
/// what can be clicked.
pub proof fn law_sidebar_fills_the_screen(
    rows: usize,
    cols: usize,
    mode: SidebarModeView,
    tabs: Seq<TabLineView>,
)
    requires
        rows > 0,
    ensures
        sidebar_screen(rows, cols, mode, tabs).lines.len() == rows,
        sidebar_screen(rows, cols, mode, tabs).clickable_rows.len() == rows,
{
}

/// A notice fills the screen exactly, and no row of it leads to a tab.
pub proof fn law_notice_fills_the_screen(
    rows: usize,
    cols: usize,
    mode: SidebarModeView,
    lines: Seq<Seq<char>>,
)
    requires
        rows > 0,
    ensures
        notice_screen(rows, cols, mode, lines).lines.len() == rows,
        notice_screen(rows, cols, mode, lines).clickable_rows == Seq::new(
            rows as nat,
            |i: int| None::<usize>,
        ),
{
    assert(notice_screen(rows, cols, mode, lines).clickable_rows =~= Seq::new(
        rows as nat,
        |i: int| None::<usize>,
    ));
}

/// The header leads nowhere, the row of a tab leads to that tab, and the rows
/// below the last tab lead nowhere.
pub proof fn law_rows_lead_to_their_tabs(
    rows: usize,
    cols: usize,
    mode: SidebarModeView,
    tabs: Seq<TabLineView>,
    row: int,
)
    requires
        0 <= row < rows,
    ensures
        sidebar_screen(rows, cols, mode, tabs).clickable_rows[row] == if 1 <= row <= tabs.len() {
            Some(tabs[row - 1].position)
        } else {
            None
        },
{
}

/// The first line of the sidebar is its header, in bold. Below it stand the rows of the
/// tabs, in their order and as many as fit, and below these empty rows.
pub proof fn law_lines_of_the_sidebar(
    rows: usize,
    cols: usize,
    mode: SidebarModeView,
    tabs: Seq<TabLineView>,
    row: int,
)
    requires
        0 <= row < rows,
    ensures
        sidebar_screen(rows, cols, mode, tabs).lines[row] == if row == 0 {
            styled(
                truncated(header_text(mode), cols as nat),
                mode.colors.base_fg,
                Some(mode.colors.base_bg),
                true,
            )
        } else if row <= tabs.len() {
            painted_row(tabs[row - 1], cols, mode.colors)
        } else {
            styled(
                repeated(' ', cols as nat),
                mode.colors.base_fg,
                Some(mode.colors.base_bg),
                false,
            )
        },
{
}

/// The first line of a notice is the header. Below it stand its texts, each behind a
/// blank, as many as fit, and below these empty rows; every line is filled up.
pub proof fn law_lines_of_a_notice(
    rows: usize,
    cols: usize,
    mode: SidebarModeView,
    lines: Seq<Seq<char>>,
    row: int,
)
    requires
        0 <= row < rows,
    ensures
        notice_screen(rows, cols, mode, lines).lines[row] == if row == 0 {
            filled(header_text(mode), cols as nat)
        } else if row <= lines.len() {
            filled(seq![' '] + lines[row - 1], cols as nat)
        } else {
            repeated(' ', cols as nat)
        },
{
    reveal_strlit(" ");
    assert(" "@ =~= seq![' ']);
}

/// The header is the name of the session between blanks, or that of the plugin where
/// the session has none.
pub proof fn law_header(mode: SidebarModeView)
    ensures
        header_text(mode) == seq![' '] + (match mode.session_name {
            Some(name) => name,
            None => "zeldex"@,
        }) + seq![' '],
{
    reveal_strlit(" ");
    assert(" "@ =~= seq![' ']);
}

/// A row begins with the mark of the active tab or a blank, and with the number of the
/// tab, counted from one. Behind it stand as much of the name as there is room for, as
/// many spaces as fill the row up, and at the far end the state.
pub proof fn law_parts_of_a_row(tab: TabLineView, cols: usize)
    ensures
        ({
            let mark = if tab.active {
                '▌'
            } else {
                ' '
            };
            let number = decimal((tab.position + 1) as nat);
            let name = row_name(tab, cols);
            let suffix = row_suffix(tab, cols);
            let taken = display_width(seq![mark]) + number.len() + display_width(name)
                + display_width(suffix) + 3;
            &&& row_line(tab, cols) == seq![mark, ' '] + number + seq![' '] + name + repeated(
                ' ',
                if taken < cols {
                    (cols - taken) as nat
                } else {
                    0
                },
            ) + seq![' '] + suffix
            &&& name.len() <= tab.name.len()
            &&& name == tab.name.take(name.len() as int)
        }),
{
    law_room_of_a_row(tab, cols);
    reveal_strlit(" ");
    reveal_strlit("▌");
    let name = row_name(tab, cols);
    let suffix = row_suffix(tab, cols);
    let padding = excess(cols as nat, chrome_width(tab, cols) + display_width(name));
    let mark = if tab.active {
        '▌'
    } else {
        ' '
    };
    let number = decimal((tab.position + 1) as nat);
    assert(row_prefix(tab) =~= seq![mark]);
    law_cut_fits(tab.name, name_columns(cols as nat, chrome_width(tab, cols)));
    assert(row_line(tab, cols) =~= seq![mark, ' '] + number + seq![' '] + name + repeated(
        ' ',
        padding,
    ) + seq![' '] + suffix);
}

/// How many columns a row takes beside its name, and how many are left for the name.
pub proof fn law_columns_of_a_row(prefix: nat, number: nat, suffix: nat, cols: nat, chrome: nat)
    ensures
        chrome_columns(prefix, number, suffix) == prefix + number + suffix + 3,
        name_columns(cols, chrome) == if cols > chrome + 1 {
            (cols - chrome) as nat
        } else {
            1
        },
{
}

/// The room for the name of a tab is what mark, number and state leave of the columns,
/// with a blank behind each of the first two and one before the last, and at least one
/// column. The spaces behind the name fill the row up.
pub proof fn law_room_of_a_row(tab: TabLineView, cols: usize)
    ensures
        ({
            let beside = display_width(row_prefix(tab)) + decimal((tab.position + 1) as nat).len()
                + display_width(row_suffix(tab, cols)) + 3;
            row_name(tab, cols) == truncated(
                tab.name,
                if beside + 1 < cols {
                    (cols - beside) as nat
                } else {
                    1
                },
            )
        }),
        row_prefix(tab) == if tab.active {
            seq!['▌']
        } else {
            seq![' ']
        },
{
    reveal_strlit(" ");
    reveal_strlit("▌");
    assert(" "@ =~= seq![' ']);
    assert("▌"@ =~= seq!['▌']);
}

/// The state of a row is the mark of the state, a dot where the tab is unread; then the
/// number of agents where there are several; then, where there are at least eighteen
/// columns, the name of the state, that of waiting where the tab is unread.
pub proof fn law_state_of_a_row(tab: TabLineView, cols: usize)
    ensures
        ({
            let kind = if tab.unread {
                AgentStatusKind::Waiting
            } else {
                tab.status
            };
            row_suffix(tab, cols) == badge_of(kind) + (if tab.tracked_agents > 1 {
                seq![' '] + decimal(tab.tracked_agents as nat)
            } else {
                Seq::empty()
            }) + (if cols >= 18 && !(kind is Idle) {
                seq![' '] + label_of(kind)
            } else {
                Seq::empty()
            })
        }),
{
    reveal_strlit(" ");
    reveal_strlit("●");
    assert(" "@ =~= seq![' ']);
    assert("●"@ =~= seq!['●']);
    let kind = if tab.unread {
        AgentStatusKind::Waiting
    } else {
        tab.status
    };
    assert(row_suffix(tab, cols) =~= badge_of(kind) + (if tab.tracked_agents > 1 {
        seq![' '] + decimal(tab.tracked_agents as nat)
    } else {
        Seq::empty()
    }) + (if cols >= 18 && !(kind is Idle) {
        seq![' '] + label_of(kind)
    } else {
        Seq::empty()
    }));
}

/// A row is cut to the columns and has the colours of the active tab, in bold, or those
/// of the sidebar. Before the row of a tab that waits or is unread stands an accent.
pub proof fn law_colours_of_a_row(tab: TabLineView, cols: usize, colors: SidebarColors)
    ensures
        ({
            let text = truncated(row_line(tab, cols), cols as nat);
            let row = styled(
                text,
                if tab.active {
                    colors.active_fg
                } else {
                    colors.base_fg
                },
                Some(
                    if tab.active {
                        colors.active_bg
                    } else {
                        colors.base_bg
                    },
                ),
                tab.active,
            );
            painted_row(tab, cols, colors) == if tab.unread || tab.status is Waiting {
                styled(Seq::empty(), colors.accent, None, false) + row
            } else {
                row
            }
        }),
{
}

} // verus!
