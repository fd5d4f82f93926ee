//! The sidebar: its panes, its events and its screen.

use zeldex::ansi::{
    columns_left, fill_to_width, paint, paint_badge, truncate_to_width, PaletteColor,
};
use zeldex::codex_file::{CodexFile, CodexFileKind};
use zeldex::panes::{
    agent_count_for_tab, folder_name, status_for_tab, tab_name, tracked_pane_set_changed, Pane,
    PaneCwd, Tab, TrackedPane,
};
use zeldex::render::{
    columns_for_name, columns_of_chrome, render_notice, render_row, render_sidebar, SidebarColors, SidebarMode, TabLine,
};
use zeldex::sidebar::{
    Command, MouseEvent, Outcome, PermissionState, RefreshCause, RefreshPlan, Sidebar,
    SidebarEvent,
};
use zeldex::sorted_map::SortedMap;
use zeldex::status::AgentStatusKind;
use zeldex::time::Timestamp;

const NOW: Timestamp = Timestamp { secs: 100, nanos: 0 };

fn mode() -> SidebarMode {
    SidebarMode {
        session_name: Some("main".to_owned()),
        colors: SidebarColors {
            base_fg: PaletteColor::EightBit(7),
            base_bg: PaletteColor::EightBit(0),
            active_fg: PaletteColor::Rgb(1, 20, 255),
            active_bg: PaletteColor::EightBit(2),
            accent: PaletteColor::EightBit(3),
        },
    }
}

fn tab(position: usize, name: &str, active: bool) -> Tab {
    Tab {
        position,
        name: name.to_owned(),
        active,
    }
}

fn terminal(id: u32) -> Pane {
    Pane {
        id,
        is_plugin: false,
        is_focused: false,
    }
}

fn line(position: usize, name: &str, status: AgentStatusKind) -> TabLine {
    TabLine {
        position,
        name: name.to_owned(),
        active: false,
        unread: false,
        tracked_agents: 1,
        status,
    }
}

fn agents(list: &[(u32, usize, AgentStatusKind)]) -> SortedMap<u32, TrackedPane> {
    let mut panes = SortedMap::new();
    for (id, tab_position, status) in list {
        panes.insert(
            *id,
            TrackedPane {
                tab_position: *tab_position,
                status: *status,
            },
        );
    }
    panes
}

fn transcript(name: &str, cwd: &str, event: &str, modified_at: u64) -> CodexFile {
    CodexFile {
        kind: CodexFileKind::Transcript,
        modified_at,
        path: format!("/host/sessions/{name}.jsonl"),
        content: format!(
            "{{\"type\":\"session_meta\",\"payload\":{{\"cwd\":\"{cwd}\"}}}}\n{{\"type\":\"event_msg\",\"payload\":{{\"type\":\"{event}\"}}}}\n"
        ),
    }
}

fn session() -> Sidebar {
    let mut sidebar = Sidebar::load(mode(), Some("/home/me/.codex"));
    sidebar.update(SidebarEvent::Permission(true));
    sidebar.update(SidebarEvent::Tabs(vec![
        tab(0, "one", true),
        tab(1, "two", false),
        tab(2, "", false),
    ]));
    let mut panes = SortedMap::new();
    panes.insert(0, vec![terminal(1)]);
    panes.insert(
        1,
        vec![
            Pane {
                id: 9,
                is_plugin: true,
                is_focused: true,
            },
            terminal(2),
            Pane {
                id: 3,
                is_plugin: false,
                is_focused: true,
            },
        ],
    );
    sidebar.update(SidebarEvent::Panes(panes));
    sidebar
}

fn cwds(list: &[(u32, &str)]) -> Vec<PaneCwd> {
    list.iter()
        .map(|(id, cwd)| PaneCwd {
            id: *id,
            cwd: Some(cwd.to_string()),
        })
        .collect()
}

fn refresh(sidebar: &mut Sidebar, files: Vec<CodexFile>) -> bool {
    match sidebar.plan_refresh(&cwds(&[(1, "/a"), (2, "/b"), (3, "/c/.")])) {
        RefreshPlan::Read(targets) => sidebar.refresh_from_host(&targets, Ok(files), NOW),
        RefreshPlan::Skip => panic!("a refresh was due"),
    }
}

#[test]
fn removal_counts_as_change() {
    let mut previous = SortedMap::new();
    previous.insert(7, AgentStatusKind::Running);
    let current = SortedMap::new();
    assert!(tracked_pane_set_changed(&previous, &current));
}

#[test]
fn stable_set_is_not_change() {
    let mut previous = SortedMap::new();
    previous.insert(7, AgentStatusKind::Running);
    let current = agents(&[(7, 0, AgentStatusKind::Running)]);
    assert!(!tracked_pane_set_changed(&previous, &current));
}

#[test]
fn other_panes_count_as_change() {
    let mut previous = SortedMap::new();
    previous.insert(7, AgentStatusKind::Running);
    assert!(tracked_pane_set_changed(&previous, &agents(&[(8, 0, AgentStatusKind::Running)])));
    assert!(tracked_pane_set_changed(&SortedMap::new(), &agents(&[(8, 0, AgentStatusKind::Done)])));
}

#[test]
fn folder_name_uses_final_path_component() {
    assert_eq!(
        folder_name("/Users/adam/Projects/dotnix"),
        Some("dotnix".into())
    );
    assert_eq!(folder_name("/"), None);
}

#[test]
fn folder_names_of_odd_paths() {
    assert_eq!(folder_name(""), None);
    assert_eq!(folder_name("."), Some(".".to_owned()));
    assert_eq!(folder_name("a/.."), Some("..".to_owned()));
    assert_eq!(folder_name("a/b/"), Some("b".to_owned()));
}

#[test]
fn tabs_are_named_by_folder_then_name_then_number() {
    assert_eq!(tab_name(&tab(4, "old", false), Some("/x/y/../z")), "z");
    assert_eq!(tab_name(&tab(4, "old", false), Some("/")), "old");
    assert_eq!(tab_name(&tab(4, "", false), None), "tab-5");
}

#[test]
fn tabs_show_the_most_urgent_agent() {
    let panes = agents(&[
        (1, 0, AgentStatusKind::Done),
        (2, 0, AgentStatusKind::Running),
        (3, 1, AgentStatusKind::Waiting),
        (4, 2, AgentStatusKind::Done),
    ]);
    assert_eq!(status_for_tab(&panes, 0), AgentStatusKind::Running);
    assert_eq!(status_for_tab(&panes, 1), AgentStatusKind::Waiting);
    assert_eq!(status_for_tab(&panes, 2), AgentStatusKind::Done);
    assert_eq!(status_for_tab(&panes, 3), AgentStatusKind::Idle);
    assert_eq!(agent_count_for_tab(&panes, 0), 2);
    assert_eq!(agent_count_for_tab(&panes, 3), 0);
}

#[test]
fn colours_are_written_as_sequences() {
    assert_eq!(
        paint("hi", PaletteColor::EightBit(100), PaletteColor::EightBit(200), false),
        "\u{1b}[48;5;200;38;5;100mhi\u{1b}[0m"
    );
    assert_eq!(
        paint("hi", PaletteColor::Rgb(70, 130, 180), PaletteColor::Rgb(5, 10, 15), true),
        "\u{1b}[1;48;2;5;10;15;38;2;70;130;180mhi\u{1b}[0m"
    );
    assert_eq!(
        paint_badge("row", PaletteColor::EightBit(9)),
        "\u{1b}[38;5;9m\u{1b}[0mrow"
    );
}

#[test]
fn texts_are_cut_and_filled_by_columns() {
    assert_eq!(truncate_to_width("hello", 3), "hel");
    assert_eq!(truncate_to_width("hello", 0), "");
    assert_eq!(truncate_to_width("日本語", 5), "日本");
    assert_eq!(truncate_to_width("e\u{301}x", 1), "e\u{301}");
    assert_eq!(truncate_to_width("🇺🇸!", 2), "🇺🇸");
    assert_eq!(fill_to_width("日本語", 5), "日本 ");
    assert_eq!(fill_to_width("ab", 4), "ab  ");
    assert_eq!(fill_to_width("", 2), "  ");
    assert_eq!(fill_to_width("ab", 0), "");
    assert_eq!(unicode_width::UnicodeWidthStr::width(fill_to_width("👩\u{200d}👩x", 4).as_str()), 4);
}

#[test]
fn columns_are_shared_out() {
    assert_eq!(columns_left(10, 4), 6);
    assert_eq!(columns_left(4, 10), 0);
    assert_eq!(columns_left(usize::MAX, u128::MAX), 0);
    assert_eq!(columns_of_chrome(1, 2, 5), 11);
    assert_eq!(columns_for_name(24, 11), 13);
    assert_eq!(columns_for_name(11, 11), 1);
    assert_eq!(columns_for_name(0, 11), 1);
}

#[test]
fn rows_hold_number_name_and_state() {
    assert_eq!(
        render_row(&line(0, "dotnix", AgentStatusKind::Running), 24),
        "  1 dotnix         … run"
    );
    assert_eq!(
        render_row(&line(9, "dotnix", AgentStatusKind::Idle), 12),
        "  10 dotni ·"
    );
    let mut busy = line(1, "x", AgentStatusKind::Done);
    busy.tracked_agents = 12;
    busy.active = true;
    assert_eq!(render_row(&busy, 20), "▌ 2 x      ✓ 12 done");
    let mut unread = line(1, "name", AgentStatusKind::Running);
    unread.unread = true;
    assert_eq!(render_row(&unread, 20), "  2 name      ● wait");
    assert_eq!(render_row(&line(0, "日本語", AgentStatusKind::Idle), 3), "  1  ·");
}

#[test]
fn sidebars_fill_the_screen() {
    let mut active = line(0, "one", AgentStatusKind::Idle);
    active.active = true;
    let waiting = line(3, "two", AgentStatusKind::Waiting);
    let screen = render_sidebar(4, 10, &mode(), &[active.clone(), waiting.clone()]);
    assert_eq!(screen.clickable_rows, vec![None, Some(0), Some(3), None]);
    assert_eq!(
        screen.lines,
        vec![
            "\u{1b}[1;48;5;0;38;5;7m main \u{1b}[0m".to_owned(),
            "\u{1b}[1;48;5;2;38;2;1;20;255m▌ 1 one  ·\u{1b}[0m".to_owned(),
            "\u{1b}[38;5;3m\u{1b}[0m\u{1b}[48;5;0;38;5;7m  4 two  ●\u{1b}[0m".to_owned(),
            "\u{1b}[48;5;0;38;5;7m          \u{1b}[0m".to_owned(),
        ]
    );
    let small = render_sidebar(2, 10, &mode(), &[active, waiting]);
    assert_eq!(small.clickable_rows, vec![None, Some(0)]);
    assert_eq!(small.lines.len(), 2);
}

#[test]
fn notices_fill_the_screen() {
    let mut unnamed = mode();
    unnamed.session_name = None;
    let screen = render_notice(4, 9, &unnamed, &["first".to_owned(), "a longer one".to_owned()]);
    assert_eq!(
        screen.lines,
        vec![" zeldex  ", " first   ", " a longer", "         "]
    );
    assert_eq!(screen.clickable_rows, vec![None; 4]);
    assert_eq!(render_notice(1, 3, &mode(), &["x".to_owned()]).lines, vec![" ma"]);
}

#[test]
fn loading_needs_a_codex_home() {
    let sidebar = Sidebar::load(mode(), Some(""));
    assert_eq!(sidebar.codex_home, None);
    assert_eq!(sidebar.status_error.as_deref(), Some("missing codex_home config"));
    assert_eq!(
        sidebar.notice_lines(),
        vec!["codex read failed", "missing codex_home config"]
    );
    let sidebar = Sidebar::load(mode(), Some("/c"));
    assert_eq!(sidebar.status_error, None);
    assert!(sidebar.should_render_notice());
    assert_eq!(
        sidebar.notice_lines(),
        vec!["waiting for plugin permissions", "needs app-state + full disk access"]
    );
}

#[test]
fn permissions_are_answered() {
    let mut sidebar = Sidebar::load(mode(), Some("/c"));
    assert!(sidebar.terminals_to_ask().is_empty());
    assert!(matches!(sidebar.plan_refresh(&cwds(&[(1, "/a")])), RefreshPlan::Skip));
    let denied = sidebar.update(SidebarEvent::Permission(false));
    assert_eq!(
        denied.commands,
        vec![Command::SetSelectable(true), Command::SetTimeout]
    );
    assert_eq!(denied.outcome, Outcome::Done(true));
    assert_eq!(
        sidebar.notice_lines(),
        vec!["plugin permissions denied", "grant access, then reopen zellij"]
    );
    let failed = sidebar.update(SidebarEvent::HostFolderFailed(None));
    assert_eq!(failed.outcome, Outcome::Done(true));
    assert_eq!(
        sidebar.status_error.as_deref(),
        Some("failed to point /host at codex home")
    );
    let granted = sidebar.update(SidebarEvent::Permission(true));
    assert_eq!(
        granted.commands,
        vec![
            Command::SetSelectable(false),
            Command::ChangeHostFolder("/c".to_owned())
        ]
    );
    assert_eq!(granted.outcome, Outcome::Refresh(RefreshCause::Poll));
    assert_eq!(sidebar.status_error, None);
    assert_eq!(sidebar.permission_state, PermissionState::Granted);
    assert_eq!(sidebar.notice_lines(), vec!["waiting for tab data"]);
    let done = sidebar.finish_refresh(RefreshCause::Poll, false);
    assert_eq!(done.commands, vec![Command::SetTimeout]);
    assert_eq!(done.outcome, Outcome::Done(false));
    sidebar.update(SidebarEvent::HostFolderFailed(Some("gone".to_owned())));
    let done = sidebar.finish_refresh(RefreshCause::Poll, false);
    assert_eq!(done.outcome, Outcome::Done(true));
}

#[test]
fn attention_marks_inactive_tabs_unread() {
    let mut sidebar = session();
    assert_eq!(sidebar.terminals_to_ask(), vec![1, 2, 3]);
    assert!(refresh(
        &mut sidebar,
        vec![
            transcript("a", "/a", "task_complete", 90),
            transcript("b", "/b", "task_started", 90),
        ],
    ));
    assert!(sidebar.unread_tabs.is_empty());
    assert_eq!(sidebar.tracked_panes.len(), 2);
    assert!(refresh(
        &mut sidebar,
        vec![
            transcript("a", "/a", "task_complete", 90),
            transcript("b", "/b", "task_complete", 95),
        ],
    ));
    assert_eq!(sidebar.unread_tabs.iter().copied().collect::<Vec<_>>(), vec![1]);
    assert!(!refresh(
        &mut sidebar,
        vec![
            transcript("a", "/a", "task_complete", 90),
            transcript("b", "/b", "task_complete", 95),
        ],
    ));
    assert_eq!(sidebar.unread_tabs.len(), 1);
    let shown = sidebar.tab_lines(&vec![Some("/a".to_owned()), None, None]);
    let names: Vec<&str> = shown.iter().map(|line| line.name.as_str()).collect();
    assert_eq!(names, vec!["a", "two", "tab-3"]);
    assert!(shown[1].unread && !shown[0].unread);
    assert_eq!(shown[1].status, AgentStatusKind::Done);
    assert_eq!(sidebar.naming_panes(), vec![Some(1), Some(3), None]);
    sidebar.update(SidebarEvent::Tabs(vec![tab(0, "one", false), tab(1, "two", true)]));
    assert!(sidebar.unread_tabs.is_empty());
}

#[test]
fn waiting_agents_mark_tabs_too() {
    let mut sidebar = session();
    let mut file = transcript("c", "/c", "task_started", 10);
    file.content += "{\"type\":\"function_call\"}\n";
    assert!(refresh(&mut sidebar, vec![file]));
    assert_eq!(sidebar.unread_tabs.iter().copied().collect::<Vec<_>>(), vec![1]);
    assert!(refresh(&mut sidebar, vec![]));
    assert_eq!(sidebar.tracked_panes.len(), 0);
    assert_eq!(sidebar.unread_tabs.len(), 1);
}

#[test]
fn read_errors_are_shown_once() {
    let mut sidebar = session();
    let targets = match sidebar.plan_refresh(&cwds(&[(1, "/a")])) {
        RefreshPlan::Read(targets) => targets,
        RefreshPlan::Skip => panic!("a refresh was due"),
    };
    assert_eq!(targets[0].pane_id, "1");
    assert!(sidebar.refresh_from_host(&targets, Err("no".to_owned()), NOW));
    assert!(!sidebar.refresh_from_host(&targets, Err("no".to_owned()), NOW));
    assert!(sidebar.should_render_notice());
    sidebar.refresh_from_host(&targets, Ok(vec![]), NOW);
    assert!(!sidebar.should_render_notice());
}

#[test]
fn sessions_without_terminals_are_forgotten() {
    let mut sidebar = session();
    refresh(&mut sidebar, vec![transcript("a", "/a", "task_started", 90)]);
    assert_eq!(sidebar.refresh_cache.bindings.len(), 1);
    let unknown = vec![PaneCwd { id: 1, cwd: None }];
    assert!(matches!(sidebar.plan_refresh(&unknown), RefreshPlan::Skip));
    assert_eq!(sidebar.refresh_cache.bindings.len(), 0);
    assert_eq!(sidebar.tracked_panes.len(), 0);
    assert_eq!(sidebar.snapshot.updated_at, 0);
}

#[test]
fn other_panes_ask_for_a_refresh() {
    let mut sidebar = session();
    refresh(&mut sidebar, vec![transcript("b", "/b", "task_started", 90)]);
    let mut panes = SortedMap::new();
    panes.insert(2, vec![terminal(2)]);
    let reaction = sidebar.update(SidebarEvent::Panes(panes));
    assert_eq!(reaction.outcome, Outcome::Refresh(RefreshCause::Panes));
    let done = sidebar.finish_refresh(RefreshCause::Panes, false);
    assert_eq!((done.commands.len(), done.outcome), (0, Outcome::Done(false)));
    assert_eq!(sidebar.tracked_panes.get(&2).map(|pane| pane.tab_position), Some(2));
}

#[test]
fn clicks_and_scrolls_switch_tabs() {
    let mut sidebar = session();
    let lines = sidebar.render(5, 20, &vec![]);
    assert_eq!(lines.len(), 5);
    assert_eq!(sidebar.clickable_rows, vec![None, Some(0), Some(1), Some(2), None]);
    let number = |sidebar: &mut Sidebar, mouse: MouseEvent| -> Vec<Command> {
        let reaction = sidebar.update(SidebarEvent::Mouse(mouse));
        assert_eq!(reaction.outcome, Outcome::Done(false));
        reaction.commands
    };
    assert_eq!(number(&mut sidebar, MouseEvent::LeftClick(2)), vec![Command::SwitchTab(2)]);
    assert_eq!(number(&mut sidebar, MouseEvent::LeftClick(0)), vec![]);
    assert_eq!(number(&mut sidebar, MouseEvent::LeftClick(4)), vec![]);
    assert_eq!(number(&mut sidebar, MouseEvent::LeftClick(5)), vec![]);
    assert_eq!(number(&mut sidebar, MouseEvent::LeftClick(-1)), vec![]);
    assert_eq!(number(&mut sidebar, MouseEvent::Other), vec![]);
    assert_eq!(number(&mut sidebar, MouseEvent::ScrollUp), vec![Command::SwitchTab(2)]);
    assert_eq!(number(&mut sidebar, MouseEvent::ScrollDown), vec![Command::SwitchTab(1)]);
    sidebar.update(SidebarEvent::Tabs(vec![
        tab(0, "", false),
        tab(1, "", false),
        tab(2, "", true),
    ]));
    assert_eq!(number(&mut sidebar, MouseEvent::ScrollUp), vec![Command::SwitchTab(3)]);
    assert_eq!(number(&mut sidebar, MouseEvent::ScrollDown), vec![Command::SwitchTab(2)]);
    sidebar.update(SidebarEvent::Tabs(vec![]));
    assert_eq!(number(&mut sidebar, MouseEvent::ScrollUp), vec![]);
    assert_eq!(sidebar.render(2, 24, &vec![])[1].trim_end(), " waiting for tab data");
    assert!(sidebar.render(0, 20, &vec![]).is_empty());
    assert_eq!(sidebar.clickable_rows, vec![None, None]);
    assert_eq!(number(&mut sidebar, MouseEvent::LeftClick(1)), vec![]);
}

#[test]
fn quiet_events_change_nothing() {
    let mut sidebar = session();
    assert_eq!(sidebar.update(SidebarEvent::Other).outcome, Outcome::Done(false));
    assert_eq!(
        sidebar.update(SidebarEvent::Timer).outcome,
        Outcome::Refresh(RefreshCause::Poll)
    );
    let mut other = mode();
    other.session_name = Some("work".to_owned());
    assert_eq!(sidebar.update(SidebarEvent::Mode(other)).outcome, Outcome::Done(true));
    assert!(sidebar.render(1, 20, &vec![])[0].contains(" work "));
}
