//! The "Land Survey" ribbon tab: its groups and tools, as plain data that
//! the host renders. Every tool dispatches a command that
//! [`command_of`](crate::dispatch::command_of) recognises.
use vstd::prelude::*;

use crate::dispatch::command_named;

verus! {

/// How a tool is drawn.
pub enum IconKind {
    /// A single glyph of text.
    Glyph(&'static str),
}

/// What clicking a tool does.
pub enum ModuleEvent {
    /// Dispatch this command line.
    Command(String),
    /// Ask the host for a file, then dispatch `command <path>`.
    PluginFileDialog {
        command: String,
        title: String,
        filter_name: String,
        extensions: Vec<String>,
    },
}

/// A tool button.
pub struct ToolDef {
    pub id: &'static str,
    pub label: &'static str,
    pub icon: IconKind,
    pub event: ModuleEvent,
}

/// An entry of a ribbon group.
pub enum RibbonItem {
    /// A large button.
    LargeTool(ToolDef),
}

/// A titled group of tools.
pub struct RibbonGroup {
    pub title: &'static str,
    pub tools: Vec<RibbonItem>,
}

/// The text content of a [`ModuleEvent`].
pub enum EventView {
    Command(Seq<char>),
    FileDialog {
        command: Seq<char>,
        title: Seq<char>,
        filter_name: Seq<char>,
        extensions: Seq<Seq<char>>,
    },
}

/// The text content of a tool: id, label, glyph and event.
pub struct ToolView {
    pub id: Seq<char>,
    pub label: Seq<char>,
    pub glyph: Seq<char>,
    pub event: EventView,
}

/// The text content of a group: its title and tools.
pub struct GroupView {
    pub title: Seq<char>,
    pub tools: Seq<ToolView>,
}

impl View for ModuleEvent {
    type V = EventView;

    open spec fn view(&self) -> EventView {
        match self {
            ModuleEvent::Command(c) => EventView::Command(c@),
            ModuleEvent::PluginFileDialog { command, title, filter_name, extensions } => {
                EventView::FileDialog {
                    command: command@,
                    title: title@,
                    filter_name: filter_name@,
                    extensions: extensions@.map_values(|e: String| e@),
                }
            },
        }
    }
}

impl View for RibbonItem {
    type V = ToolView;

    open spec fn view(&self) -> ToolView {
        match self {
            RibbonItem::LargeTool(t) => ToolView {
                id: t.id@,
                label: t.label@,
                glyph: match t.icon {
                    IconKind::Glyph(g) => g@,
                },
                event: t.event@,
            },
        }
    }
}

impl View for RibbonGroup {
    type V = GroupView;

    open spec fn view(&self) -> GroupView {
        GroupView { title: self.title@, tools: self.tools@.map_values(|t: RibbonItem| t@) }
    }
}

/// The text content of a list of groups.
pub open spec fn groups_view(groups: Seq<RibbonGroup>) -> Seq<GroupView> {
    groups.map_values(|g: RibbonGroup| g@)
}

/// The command line a tool dispatches (for a file dialog, before the path).
pub open spec fn event_command(e: EventView) -> Seq<char> {
    match e {
        EventView::Command(c) => c,
        EventView::FileDialog { command, .. } => command,
    }
}

/// A tool that opens a file dialog.
pub open spec fn dialog_tool(
    id: Seq<char>,
    label: Seq<char>,
    glyph: Seq<char>,
    title: Seq<char>,
    filter_name: Seq<char>,
    extensions: Seq<Seq<char>>,
) -> ToolView {
    ToolView {
        id,
        label,
        glyph,
        event: EventView::FileDialog { command: id, title, filter_name, extensions },
    }
}

/// A tool that dispatches its own id as a command.
pub open spec fn command_tool(id: Seq<char>, label: Seq<char>, glyph: Seq<char>) -> ToolView {
    ToolView { id, label, glyph, event: EventView::Command(id) }
}

/// The Land Survey ribbon tab, group by group.
pub open spec fn land_survey_ribbon() -> Seq<GroupView> {
    seq![
        GroupView {
            title: "Points"@,
            tools: seq![
                dialog_tool(
                    "LS_PNEZD"@,
                    "Import PNEZD"@,
                    "\u{2295}"@,
                    "Import PNEZD points"@,
                    "PNEZD point file"@,
                    seq!["csv"@, "txt"@],
                ),
                command_tool("LS_LIST"@, "List Points"@, "\u{2261}"@),
            ],
        },
        GroupView {
            title: "Plan"@,
            tools: seq![
                dialog_tool(
                    "LS_IMPORTPLAN"@,
                    "Import Plan"@,
                    "\u{25A6}"@,
                    "Import recognized plan geometry"@,
                    "Plan geometry JSON"@,
                    seq!["json"@],
                ),
            ],
        },
        GroupView {
            title: "COGO"@,
            tools: seq![command_tool("LS_INVERSE"@, "Inverse"@, "\u{2220}"@)],
        },
        GroupView {
            title: "Transform"@,
            tools: seq![
                command_tool("LS_RTS"@, "RTS"@, "\u{27F3}"@),
                dialog_tool(
                    "LS_HELMERT"@,
                    "Helmert"@,
                    "\u{2245}"@,
                    "Helmert fit from control pairs"@,
                    "Control pairs (srcN,srcE,dstN,dstE)"@,
                    seq!["csv"@, "txt"@],
                ),
            ],
        },
        GroupView {
            title: "Surface"@,
            tools: seq![
                dialog_tool(
                    "LS_SURFACE"@,
                    "Build Surface"@,
                    "\u{25B3}"@,
                    "Build surface from points or LandXML"@,
                    "PNEZD or LandXML surface"@,
                    seq!["csv"@, "txt"@, "xml"@, "landxml"@],
                ),
                command_tool("LS_VOLUME"@, "Volume"@, "\u{2206}"@),
                command_tool("LS_DATUM"@, "To Datum"@, "\u{2261}"@),
            ],
        },
    ]
}

/// The ribbon tab shown when "Land Survey" is the active tab.
pub struct LandSurveyModule;

fn owned(s: &str) -> (r: String)
    ensures
        r@ == s@,
{
    s.to_owned()
}

/// The text content of a list of file extensions.
pub open spec fn names_view(v: Seq<String>) -> Seq<Seq<char>> {
    v.map_values(|e: String| e@)
}

fn push_name(v: &mut Vec<String>, e: &str)
    ensures
        names_view(final(v)@) == names_view(old(v)@).push(e@),
{
    let ghost before = names_view(v@);
    v.push(owned(e));
    assert(names_view(v@) =~= before.push(e@));
}

fn dialog(id: &'static str, label: &'static str, glyph: &'static str, title: &str, filter_name: &str, extensions: Vec<String>) -> (r: RibbonItem)
    ensures
        r@ == dialog_tool(id@, label@, glyph@, title@, filter_name@, names_view(extensions@)),
{
    RibbonItem::LargeTool(ToolDef {
        id,
        label,
        icon: IconKind::Glyph(glyph),
        event: ModuleEvent::PluginFileDialog {
            command: owned(id),
            title: owned(title),
            filter_name: owned(filter_name),
            extensions,
        },
    })
}

fn command(id: &'static str, label: &'static str, glyph: &'static str) -> (r: RibbonItem)
    ensures
        r@ == command_tool(id@, label@, glyph@),
{
    RibbonItem::LargeTool(
        ToolDef { id, label, icon: IconKind::Glyph(glyph), event: ModuleEvent::Command(owned(id)) },
    )
}

impl LandSurveyModule {
    /// The tab's id.
    pub fn id(&self) -> (r: &'static str)
        ensures
            r@ == "landsurvey"@,
    {
        "landsurvey"
    }

    /// The tab's title.
    pub fn title(&self) -> (r: &'static str)
        ensures
            r@ == "Land Survey"@,
    {
        "Land Survey"
    }

    /// The groups of the tab (see [`land_survey_ribbon`]).
    pub fn ribbon_groups(&self) -> (r: Vec<RibbonGroup>)
        ensures
            groups_view(r@) == land_survey_ribbon(),
    {
        let mut csv_txt: Vec<String> = Vec::new();
        push_name(&mut csv_txt, "csv");
        push_name(&mut csv_txt, "txt");
        let mut json: Vec<String> = Vec::new();
        push_name(&mut json, "json");
        let mut pairs_ext: Vec<String> = Vec::new();
        push_name(&mut pairs_ext, "csv");
        push_name(&mut pairs_ext, "txt");
        let mut surface_ext: Vec<String> = Vec::new();
        push_name(&mut surface_ext, "csv");
        push_name(&mut surface_ext, "txt");
        push_name(&mut surface_ext, "xml");
        push_name(&mut surface_ext, "landxml");
        assert(names_view(csv_txt@) =~= seq!["csv"@, "txt"@]);
        assert(names_view(json@) =~= seq!["json"@]);
        assert(names_view(pairs_ext@) =~= seq!["csv"@, "txt"@]);
        assert(names_view(surface_ext@) =~= seq!["csv"@, "txt"@, "xml"@, "landxml"@]);
        let points = RibbonGroup {
            title: "Points",
            tools: vec![
                dialog(
                    "LS_PNEZD",
                    "Import PNEZD",
                    "\u{2295}",
                    "Import PNEZD points",
                    "PNEZD point file",
                    csv_txt,
                ),
                command("LS_LIST", "List Points", "\u{2261}"),
            ],
        };
        let plan = RibbonGroup {
            title: "Plan",
            tools: vec![
                dialog(
                    "LS_IMPORTPLAN",
                    "Import Plan",
                    "\u{25A6}",
                    "Import recognized plan geometry",
                    "Plan geometry JSON",
                    json,
                ),
            ],
        };
        let cogo = RibbonGroup {
            title: "COGO",
            tools: vec![command("LS_INVERSE", "Inverse", "\u{2220}")],
        };
        let transform = RibbonGroup {
            title: "Transform",
            tools: vec![
                command("LS_RTS", "RTS", "\u{27F3}"),
                dialog(
                    "LS_HELMERT",
                    "Helmert",
                    "\u{2245}",
                    "Helmert fit from control pairs",
                    "Control pairs (srcN,srcE,dstN,dstE)",
                    pairs_ext,
                ),
            ],
        };
        let surface = RibbonGroup {
            title: "Surface",
            tools: vec![
                dialog(
                    "LS_SURFACE",
                    "Build Surface",
                    "\u{25B3}",
                    "Build surface from points or LandXML",
                    "PNEZD or LandXML surface",
                    surface_ext,
                ),
                command("LS_VOLUME", "Volume", "\u{2206}"),
                command("LS_DATUM", "To Datum", "\u{2261}"),
            ],
        };
        let ghost want = land_survey_ribbon();
        assert(points@.tools =~~= want[0].tools);
        assert(plan@.tools =~~= want[1].tools);
        assert(cogo@.tools =~~= want[2].tools);
        assert(transform@.tools =~~= want[3].tools);
        assert(surface@.tools =~~= want[4].tools);
        let r = vec![points, plan, cogo, transform, surface];
        assert(groups_view(r@) =~~= want);
        r
    }
}

/// Every tool of the ribbon dispatches its own id as the command verb, and
/// that verb names a Land Survey command.
pub proof fn law_ribbon_tools_are_commands()
    ensures
        forall|g: int, t: int|
            0 <= g < land_survey_ribbon().len() && 0 <= t < land_survey_ribbon()[g].tools.len()
                ==> {
                let tool = #[trigger] land_survey_ribbon()[g].tools[t];
                event_command(tool.event) == tool.id && command_named(tool.id) is Some
            },
{
    let r = land_survey_ribbon();
    assert forall|g: int, t: int|
        0 <= g < r.len() && 0 <= t < r[g].tools.len() implies {
            let tool = #[trigger] r[g].tools[t];
            event_command(tool.event) == tool.id && command_named(tool.id) is Some
        } by {
        if g == 0 {
            assert(t == 0 || t == 1);
        } else if g == 3 {
            assert(t == 0 || t == 1);
        } else if g == 4 {
            assert(t == 0 || t == 1 || t == 2);
        }
    }
}

} // verus!
