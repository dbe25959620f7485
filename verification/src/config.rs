//! The optional `atp.toml` file.
//!
//! Nothing in it is required. A solution directory already describes its own
//! projects and configurations, so the file exists to give solutions short
//! names, to set defaults, and to point at a Studio installed somewhere
//! unusual.

use vstd::prelude::*;

use crate::error;
use crate::error::{AppError, Failure};
use crate::host::Host;
use crate::list;
use crate::order;
use crate::path;
use crate::path::Place;
use crate::text;

verus! {

broadcast use {crate::list::lemma_texts_push, crate::list::lemma_pieces_push};

#[derive(Clone, Debug)]
pub struct Defaults {
    pub project: Option<String>,
    pub configuration: Option<String>,
    pub backend: Option<String>,
}

/// What defaults stand for.
pub struct DefaultsView {
    pub project: Option<Seq<char>>,
    pub configuration: Option<Seq<char>>,
    pub backend: Option<Seq<char>>,
}

impl View for Defaults {
    type V = DefaultsView;

    open spec fn view(&self) -> DefaultsView {
        DefaultsView {
            project: list::optional(self.project),
            configuration: list::optional(self.configuration),
            backend: list::optional(self.backend),
        }
    }
}

#[derive(Clone, Debug)]
pub struct Studio {
    pub root: Option<String>,
}

/// What the file says of one project.
#[derive(Clone, Debug)]
pub struct ProjectConfig {
    pub description: Option<String>,
    /// The `.atsln` (or `.cproj`) this name refers to.
    pub solution: Option<String>,
    /// Which project inside the solution, when it holds several.
    pub project: Option<String>,
    pub configuration: Option<String>,
}

/// What the settings of a project stand for.
pub struct ProjectConfigView {
    pub description: Option<Seq<char>>,
    pub solution: Option<Seq<char>>,
    pub project: Option<Seq<char>>,
    pub configuration: Option<Seq<char>>,
}

impl View for ProjectConfig {
    type V = ProjectConfigView;

    open spec fn view(&self) -> ProjectConfigView {
        ProjectConfigView {
            description: list::optional(self.description),
            solution: list::optional(self.solution),
            project: list::optional(self.project),
            configuration: list::optional(self.configuration),
        }
    }
}

/// A project with the name that the file gives it.
#[derive(Clone, Debug)]
pub struct Named {
    pub name: String,
    pub entry: ProjectConfig,
}

/// What a named project stands for.
pub struct NamedView {
    pub name: Seq<char>,
    pub entry: ProjectConfigView,
}

impl View for Named {
    type V = NamedView;

    open spec fn view(&self) -> NamedView {
        NamedView { name: self.name@, entry: self.entry@ }
    }
}

/// Whether projects stand in the order of their names, no two of which are the
/// same.
pub open spec fn in_order(projects: Seq<NamedView>) -> bool {
    forall|i: int, j: int|
        0 <= i < j < projects.len() ==> order::text_before(
            (#[trigger] projects[i]).name,
            (#[trigger] projects[j]).name,
        )
}

/// Projects with one more, which takes the place of one of the same name.
pub open spec fn with_project(projects: Seq<NamedView>, item: NamedView) -> Seq<NamedView>
    decreases projects.len(),
{
    if projects.len() == 0 || order::text_before(projects.last().name, item.name) {
        projects.push(item)
    } else if projects.last().name == item.name {
        projects.drop_last().push(item)
    } else {
        with_project(projects.drop_last(), item).push(projects.last())
    }
}

/// The first project at or after `from` with a name.
pub open spec fn named_from(projects: Seq<NamedView>, name: Seq<char>, from: int) -> Option<
    ProjectConfigView,
>
    decreases projects.len() - from,
{
    if from < 0 || from >= projects.len() {
        None
    } else if projects[from].name == name {
        Some(projects[from].entry)
    } else {
        named_from(projects, name, from + 1)
    }
}

/// The project with a name.
pub open spec fn project_named(projects: Seq<NamedView>, name: Seq<char>) -> Option<
    ProjectConfigView,
> {
    named_from(projects, name, 0)
}

/// The names of projects.
pub open spec fn project_names(projects: Seq<NamedView>) -> Seq<Seq<char>> {
    projects.map_values(|project: NamedView| project.name)
}

/// Where a project goes among others that are in order: each that stands before
/// comes before it, and each that stands after comes after it.
proof fn lemma_with_project(projects: Seq<NamedView>, item: NamedView)
    requires
        in_order(projects),
    ensures
        in_order(with_project(projects, item)),
        forall|i: int|
            0 <= i < with_project(projects, item).len() ==> {
                let held = #[trigger] with_project(projects, item)[i];
                held == item || (projects.contains(held) && held.name != item.name)
            },
        with_project(projects, item).contains(item),
        forall|held: NamedView| #[trigger]
            projects.contains(held) && held.name != item.name ==> with_project(
                projects,
                item,
            ).contains(held),
    decreases projects.len(),
{
    let after = with_project(projects, item);
    if projects.len() == 0 {
        assert(after[0] == item);
    } else {
        let last = projects.last();
        let front = projects.drop_last();
        order::lemma_text_before_total(last.name, item.name);
        order::lemma_text_before_total(item.name, last.name);
        assert(projects.contains(last));
        assert forall|i: int| 0 <= i < front.len() implies projects.contains(#[trigger] front[i])
            && order::text_before(front[i].name, last.name) by {
            assert(front[i] == projects[i]);
            assert(projects[projects.len() - 1] == last);
        }
        if order::text_before(last.name, item.name) {
            assert(after[projects.len() as int] == item);
            assert forall|i: int| 0 <= i < projects.len() implies order::text_before(
                (#[trigger] projects[i]).name,
                item.name,
            ) by {
                if i < front.len() {
                    assert(front[i] == projects[i]);
                    order::lemma_text_before_chains(projects[i].name, last.name, item.name);
                }
            }
            assert forall|i: int| 0 <= i < after.len() implies {
                let held = #[trigger] after[i];
                held == item || (projects.contains(held) && held.name != item.name)
            } by {
                if i < projects.len() {
                    assert(after[i] == projects[i]);
                    order::lemma_text_before_total(projects[i].name, item.name);
                }
            }
            assert forall|held: NamedView| #[trigger]
                projects.contains(held) && held.name != item.name implies after.contains(held) by {
                let i = choose|i: int| 0 <= i < projects.len() && projects[i] == held;
                assert(after[i] == held);
            }
        } else if last.name == item.name {
            assert(after[front.len() as int] == item);
            assert forall|i: int, j: int| 0 <= i < j < after.len() implies order::text_before(
                (#[trigger] after[i]).name,
                (#[trigger] after[j]).name,
            ) by {
                assert(after[i] == projects[i]);
                if j < front.len() {
                    assert(after[j] == projects[j]);
                } else {
                    assert(front[i] == projects[i]);
                }
            }
            assert forall|i: int| 0 <= i < after.len() implies {
                let held = #[trigger] after[i];
                held == item || (projects.contains(held) && held.name != item.name)
            } by {
                if i < front.len() {
                    assert(after[i] == front[i]);
                    order::lemma_text_before_total(front[i].name, item.name);
                }
            }
            assert forall|held: NamedView| #[trigger]
                projects.contains(held) && held.name != item.name implies after.contains(held) by {
                let i = choose|i: int| 0 <= i < projects.len() && projects[i] == held;
                assert(after[i] == held);
            }
        } else {
            assert forall|i: int, j: int| 0 <= i < j < front.len() implies order::text_before(
                (#[trigger] front[i]).name,
                (#[trigger] front[j]).name,
            ) by {
                assert(front[i] == projects[i] && front[j] == projects[j]);
            }
            lemma_with_project(front, item);
            let rest = with_project(front, item);
            assert(after == rest.push(last));
            assert forall|i: int| 0 <= i < rest.len() implies order::text_before(
                (#[trigger] rest[i]).name,
                last.name,
            ) by {
                if rest[i] != item {
                    assert(front.contains(rest[i]));
                    let k = choose|k: int| 0 <= k < front.len() && front[k] == rest[i];
                    assert(front[k] == projects[k]);
                }
            }
            assert forall|i: int| 0 <= i < after.len() implies {
                let held = #[trigger] after[i];
                held == item || (projects.contains(held) && held.name != item.name)
            } by {
                if i < rest.len() {
                    assert(after[i] == rest[i]);
                    if rest[i] != item {
                        let k = choose|k: int| 0 <= k < front.len() && front[k] == rest[i];
                        assert(projects[k] == rest[i]);
                    }
                }
            }
            let at = choose|i: int| 0 <= i < rest.len() && rest[i] == item;
            assert(after[at] == item);
            assert forall|held: NamedView| #[trigger]
                projects.contains(held) && held.name != item.name implies after.contains(held) by {
                let i = choose|i: int| 0 <= i < projects.len() && projects[i] == held;
                if i < front.len() {
                    assert(front[i] == held);
                    assert(front.contains(held));
                    let k = choose|k: int| 0 <= k < rest.len() && rest[k] == held;
                    assert(after[k] == held);
                } else {
                    assert(after[rest.len() as int] == held);
                }
            }
        }
    }
}

/// A name is looked up wherever its project stands.
proof fn lemma_named_from(projects: Seq<NamedView>, name: Seq<char>, from: int)
    requires
        in_order(projects),
        0 <= from,
    ensures
        match named_from(projects, name, from) {
            Some(entry) => exists|i: int|
                from <= i < projects.len() && #[trigger] projects[i] == (NamedView {
                    name: name,
                    entry: entry,
                }),
            None => forall|i: int|
                from <= i < projects.len() ==> (#[trigger] projects[i]).name != name,
        },
    decreases projects.len() - from,
{
    if from < projects.len() {
        if projects[from].name == name {
            assert(projects[from] == (NamedView { name: name, entry: projects[from].entry }));
        } else {
            lemma_named_from(projects, name, from + 1);
        }
    }
}

/// What stands under a name in projects that are in order is what is looked up.
proof fn lemma_contains_named(projects: Seq<NamedView>, held: NamedView)
    requires
        in_order(projects),
        projects.contains(held),
    ensures
        project_named(projects, held.name) == Some(held.entry),
{
    lemma_named_from(projects, held.name, 0);
    let i = choose|i: int| 0 <= i < projects.len() && projects[i] == held;
    assert(projects[i].name == held.name);
    let entry = named_from(projects, held.name, 0)->0;
    let k = choose|k: int|
        0 <= k < projects.len() && #[trigger] projects[k] == (NamedView {
            name: held.name,
            entry: entry,
        });
    order::lemma_text_before_total(held.name, held.name);
    if k < i {
        assert(order::text_before(projects[k].name, projects[i].name));
    }
    if i < k {
        assert(order::text_before(projects[i].name, projects[k].name));
    }
}

/// Giving a name to a project is what a later look at the name sees, and no look at
/// another name sees any of it.
pub proof fn lemma_named_after_insert(
    projects: Seq<NamedView>,
    item: NamedView,
    name: Seq<char>,
)
    requires
        in_order(projects),
    ensures
        in_order(with_project(projects, item)),
        project_named(with_project(projects, item), name) == if name == item.name {
            Some(item.entry)
        } else {
            project_named(projects, name)
        },
{
    let after = with_project(projects, item);
    lemma_with_project(projects, item);
    if name == item.name {
        lemma_contains_named(after, item);
    } else {
        lemma_named_from(projects, name, 0);
        lemma_named_from(after, name, 0);
        match project_named(projects, name) {
            Some(entry) => {
                let held = NamedView { name: name, entry: entry };
                assert(projects.contains(held));
                assert(after.contains(held));
                lemma_contains_named(after, held);
            },
            None => {
                if let Some(entry) = project_named(after, name) {
                    let k = choose|k: int|
                        0 <= k < after.len() && #[trigger] after[k] == (NamedView {
                            name: name,
                            entry: entry,
                        });
                    assert(projects.contains(after[k]));
                    let i = choose|i: int| 0 <= i < projects.len() && projects[i] == after[k];
                    assert(projects[i].name == name);
                }
            },
        }
    }
}

/// The projects that the file names, in the order of their names.
#[derive(Debug)]
pub struct Projects {
    entries: Vec<Named>,
}

impl View for Projects {
    type V = Seq<NamedView>;

    closed spec fn view(&self) -> Seq<NamedView> {
        order::views(self.entries@)
    }
}

impl Projects {
    #[verifier::type_invariant]
    spec fn ordered(self) -> bool {
        in_order(order::views(self.entries@))
    }

    /// No projects.
    pub fn new() -> (r: Self)
        ensures
            r@ == Seq::<NamedView>::empty(),
    {
        let entries: Vec<Named> = Vec::new();
        assert(order::views(entries@) == Seq::<NamedView>::empty());
        Projects { entries: entries }
    }

    /// Gives a name to a project.
    pub fn insert(&mut self, name: String, entry: ProjectConfig)
        ensures
            final(self)@ == with_project(
                old(self)@,
                NamedView { name: name@, entry: entry@ },
            ),
            in_order(final(self)@),
    {
        proof {
            use_type_invariant(&*self);
        }
        let ghost all = self@;
        let item = Named { name: name, entry: entry };
        let wanted = text::chars_of(item.name.as_str());
        let ghost target = with_project(all, item@);
        proof {
            lemma_with_project(all, item@);
        }
        let mut entries: Vec<Named> = Vec::new();
        assert(order::views(entries@) == Seq::<NamedView>::empty());
        core::mem::swap(&mut self.entries, &mut entries);
        let mut n: usize = entries.len();
        let mut replaces = false;
        assert(all.take(n as int) == all);
        assert(all.skip(n as int) == Seq::<NamedView>::empty());
        while n > 0
            invariant_except_break
                !replaces,
            invariant
                n <= entries@.len(),
                all == order::views(entries@),
                all.len() == entries@.len(),
                wanted@ == item@.name,
                target == with_project(all.take(n as int), item@) + all.skip(n as int),
            ensures
                n <= entries@.len(),
                replaces ==> n > 0 && target == all.take(n - 1).push(item@) + all.skip(n as int),
                !replaces ==> target == all.take(n as int).push(item@) + all.skip(n as int),
            decreases n,
        {
            assert(all[n - 1] == entries@[n - 1]@);
            assert(all.take(n as int).last() == all[n - 1]);
            assert(all.take(n as int).drop_last() == all.take(n - 1));
            let held = text::chars_of(entries[n - 1].name.as_str());
            if order::comes_before(&held, &wanted) {
                break;
            }
            if text::same(&held, &wanted) {
                replaces = true;
                break;
            }
            assert(with_project(all.take(n - 1), item@).push(all[n - 1]) + all.skip(n as int)
                == with_project(all.take(n - 1), item@) + all.skip(n - 1));
            n -= 1;
        }
        let ghost before = entries@;
        if replaces {
            assert(order::views(before.update(n - 1, item)) == target) by {
                assert(order::views(before.update(n - 1, item)) == all.update(n - 1, item@));
                assert(all.update(n - 1, item@) == all.take(n - 1).push(item@) + all.skip(
                    n as int,
                ));
            }
            entries[n - 1] = item;
        } else {
            assert(order::views(before.insert(n as int, item)) == target) by {
                assert(order::views(before.insert(n as int, item)) == all.insert(
                    n as int,
                    item@,
                ));
                assert(all.insert(n as int, item@) == all.take(n as int).push(item@) + all.skip(
                    n as int,
                ));
            }
            entries.insert(n, item);
        }
        self.entries = entries;
    }

    /// The project with a name.
    pub fn get(&self, name: &str) -> (r: Option<&ProjectConfig>)
        ensures
            match r {
                Some(entry) => project_named(self@, name@) == Some(entry@),
                None => project_named(self@, name@) is None,
            },
    {
        let ghost all = self@;
        let mut i: usize = 0;
        while i < self.entries.len()
            invariant
                i <= self.entries@.len(),
                all == self@,
                all == order::views(self.entries@),
                all.len() == self.entries@.len(),
                named_from(all, name@, 0) == named_from(all, name@, i as int),
            decreases self.entries@.len() - i,
        {
            assert(all[i as int] == self.entries@[i as int]@);
            if text::same_str(self.entries[i].name.as_str(), name) {
                return Some(&self.entries[i].entry);
            }
            i += 1;
        }
        None
    }

    /// Whether there are no projects.
    pub fn is_empty(&self) -> (r: bool)
        ensures
            r == (self@.len() == 0),
    {
        self.entries.len() == 0
    }

    /// The projects, in the order of their names.
    pub fn list(&self) -> (r: &Vec<Named>)
        ensures
            order::views(r@) == self@,
            in_order(self@),
    {
        proof {
            use_type_invariant(self);
        }
        &self.entries
    }
}

/// What the file says.
#[derive(Debug)]
pub struct Config {
    pub defaults: Defaults,
    pub studio: Studio,
    pub projects: Projects,
    /// Where the file was read from, so relative paths inside it resolve.
    pub directory: Option<String>,
}

/// What a configuration stands for.
pub struct ConfigView {
    pub defaults: DefaultsView,
    pub studio: Option<Seq<char>>,
    pub projects: Seq<NamedView>,
    pub directory: Option<Seq<char>>,
}

impl View for Config {
    type V = ConfigView;

    open spec fn view(&self) -> ConfigView {
        ConfigView {
            defaults: self.defaults@,
            studio: list::optional(self.studio.root),
            projects: self.projects@,
            directory: list::optional(self.directory),
        }
    }
}

/// A path that the file gives, from the directory that holds the file.
pub open spec fn resolved(host: Host, directory: Option<Seq<char>>, file: Seq<char>) -> Seq<char> {
    if path::absolute(host, file) {
        file
    } else {
        match directory {
            Some(held) => path::joined(host, held, file),
            None => file,
        }
    }
}

/// The file to read, where one that is named must exist and one that is looked for
/// need not.
pub open spec fn chosen_file(explicit: Option<path::PlaceView>, places: Seq<path::PlaceView>) -> Result<
    Option<Seq<char>>,
    Failure,
> {
    match explicit {
        Some(place) => if place.present {
            Ok(Some(place.path))
        } else {
            Err(Failure::Usage(place.path + " does not exist"@))
        },
        None => Ok(path::present_from(places, 0)),
    }
}

/// What an optional place stands for.
pub open spec fn optional_place(place: Option<&Place>) -> Option<path::PlaceView> {
    match place {
        Some(held) => Some(held@),
        None => None,
    }
}

impl Config {
    /// A configuration that says nothing.
    pub fn empty() -> (r: Self)
        ensures
            r@ == (ConfigView {
                defaults: DefaultsView { project: None, configuration: None, backend: None },
                studio: None,
                projects: Seq::empty(),
                directory: None,
            }),
    {
        Config {
            defaults: Defaults { project: None, configuration: None, backend: None },
            studio: Studio { root: None },
            projects: Projects::new(),
            directory: None,
        }
    }

    /// The file to read, or none when an empty configuration will do.
    ///
    /// An explicitly named file must exist; a discovered one need not.
    pub fn file(explicit: Option<&Place>, places: &Vec<Place>) -> (r: Result<
        Option<String>,
        AppError,
    >)
        ensures
            error::viewed_optional(r) == chosen_file(
                optional_place(explicit),
                order::views(places@),
            ),
    {
        match explicit {
            Some(place) => if place.present {
                Ok(Some(place.path.as_str().to_owned()))
            } else {
                Err(AppError::Usage(text::cat2(place.path.as_str(), " does not exist")))
            },
            None => Ok(path::first_present(places)),
        }
    }

    /// Notes where the file was read from.
    pub fn read_from(&mut self, host: Host, file: &str)
        ensures
            final(self)@ == (ConfigView { directory: path::parent(host, file@), ..old(self)@ }),
    {
        self.directory = path::parent_of(host, file);
    }

    /// The names that the file gives to projects, in order.
    pub fn names(&self) -> (r: Vec<String>)
        ensures
            list::texts(r@) == project_names(self@.projects),
            in_order(self@.projects),
    {
        let named = self.projects.list();
        let ghost all = project_names(self@.projects);
        let mut out: Vec<String> = Vec::new();
        let mut i: usize = 0;
        assert(list::texts(out@) == all.take(0));
        while i < named.len()
            invariant
                i <= named@.len(),
                all == project_names(order::views(named@)),
                list::texts(out@) == all.take(i as int),
            decreases named@.len() - i,
        {
            assert(order::views(named@)[i as int] == named@[i as int]@);
            assert(all[i as int] == named@[i as int].name@);
            out.push(named[i].name.as_str().to_owned());
            i += 1;
        }
        assert(all.take(i as int) == all);
        out
    }

    /// Resolves a path written in the configuration file against its directory.
    pub fn resolve(&self, host: Host, file: &str) -> (r: String)
        ensures
            r@ == resolved(host, self@.directory, file@),
    {
        if path::is_absolute(host, file) {
            return file.to_owned();
        }
        match &self.directory {
            Some(directory) => path::join(host, directory.as_str(), file),
            None => file.to_owned(),
        }
    }
}

/// The value of an environment variable that is set to something.
pub open spec fn filled(value: Option<Seq<char>>) -> Option<Seq<char>> {
    match value {
        Some(held) => if held.len() > 0 {
            Some(held)
        } else {
            None
        },
        None => None,
    }
}

/// The directory of the program in the one that `XDG_CONFIG_HOME` names.
pub open spec fn xdg_place(host: Host, xdg: Option<Seq<char>>) -> Option<Seq<char>> {
    match filled(xdg) {
        Some(directory) => Some(path::joined(host, directory, "atp"@)),
        None => None,
    }
}

/// The directory of the program in the one that the platform keeps settings in: on
/// Windows that which `APPDATA` names, and otherwise `.config` in the home directory.
pub open spec fn platform_place(
    host: Host,
    appdata: Option<Seq<char>>,
    home: Option<Seq<char>>,
) -> Option<Seq<char>> {
    match (host, filled(appdata)) {
        (Host::Windows, Some(directory)) => Some(path::joined(host, directory, "atp"@)),
        _ => match filled(home) {
            Some(directory) => Some(
                path::joined(host, path::joined(host, directory, ".config"@), "atp"@),
            ),
            None => None,
        },
    }
}

/// The user's configuration directory.
pub open spec fn user_place(
    host: Host,
    xdg: Option<Seq<char>>,
    appdata: Option<Seq<char>>,
    home: Option<Seq<char>>,
) -> Option<Seq<char>> {
    match xdg_place(host, xdg) {
        Some(directory) => Some(directory),
        None => platform_place(host, appdata, home),
    }
}

/// A list with the configuration file of a directory at its end, if there is a
/// directory.
pub open spec fn with_file(
    host: Host,
    places: Seq<Seq<char>>,
    directory: Option<Seq<char>>,
) -> Seq<Seq<char>> {
    match directory {
        Some(held) => places.push(path::joined(host, held, "atp.toml"@)),
        None => places,
    }
}

/// The places of a configuration file that there may be, in the order in which they
/// count: the working directory, so that a checkout can carry its own file, the
/// executable's directory for a portable install, the directory under
/// `XDG_CONFIG_HOME` if that is set, and the one that the platform keeps settings in.
pub open spec fn config_places(
    host: Host,
    working: Option<Seq<char>>,
    executable: Option<Seq<char>>,
    xdg: Option<Seq<char>>,
    appdata: Option<Seq<char>>,
    home: Option<Seq<char>>,
) -> Seq<Seq<char>> {
    let beside = match executable {
        Some(file) => path::parent(host, file),
        None => None,
    };
    let first = with_file(host, Seq::empty(), working);
    let second = with_file(host, first, beside);
    let third = with_file(host, second, xdg_place(host, xdg));
    with_file(host, third, platform_place(host, appdata, home))
}

/// Whether an environment variable is set to something.
fn is_filled(value: Option<&str>) -> (r: bool)
    ensures
        r == (filled(list::optional_str(value)) is Some),
{
    match value {
        Some(held) => {
            let length: usize = text::chars_of(held).len();
            length > 0
        },
        None => false,
    }
}

/// The directory of the program in the one that `XDG_CONFIG_HOME` names.
fn xdg_directory(host: Host, xdg: Option<&str>) -> (r: Option<String>)
    ensures
        list::optional(r) == xdg_place(host, list::optional_str(xdg)),
{
    if let Some(directory) = xdg {
        if is_filled(xdg) {
            return Some(path::join(host, directory, "atp"));
        }
    }
    None
}

/// The directory of the program in the one that the platform keeps settings in.
fn platform_directory(host: Host, appdata: Option<&str>, home: Option<&str>) -> (r: Option<String>)
    ensures
        list::optional(r) == platform_place(
            host,
            list::optional_str(appdata),
            list::optional_str(home),
        ),
{
    if let Some(directory) = appdata {
        if host == Host::Windows && is_filled(appdata) {
            return Some(path::join(host, directory, "atp"));
        }
    }
    if let Some(directory) = home {
        if is_filled(home) {
            let hidden = path::join(host, directory, ".config");
            return Some(path::join(host, hidden.as_str(), "atp"));
        }
    }
    None
}

/// The user's configuration directory on this platform.
pub fn user_directory(
    host: Host,
    xdg: Option<&str>,
    appdata: Option<&str>,
    home: Option<&str>,
) -> (r: Option<String>)
    ensures
        list::optional(r) == user_place(
            host,
            list::optional_str(xdg),
            list::optional_str(appdata),
            list::optional_str(home),
        ),
{
    match xdg_directory(host, xdg) {
        Some(directory) => Some(directory),
        None => platform_directory(host, appdata, home),
    }
}

/// Adds the configuration file of a directory, if there is a directory.
fn add_file(host: Host, places: &mut Vec<String>, directory: Option<&str>)
    ensures
        list::texts(final(places)@) == with_file(
            host,
            list::texts(old(places)@),
            list::optional_str(directory),
        ),
{
    if let Some(held) = directory {
        places.push(path::join(host, held, "atp.toml"));
    }
}

/// The places of a configuration file, in the order in which they count.
pub fn discover(
    host: Host,
    working: Option<&str>,
    executable: Option<&str>,
    xdg: Option<&str>,
    appdata: Option<&str>,
    home: Option<&str>,
) -> (r: Vec<String>)
    ensures
        list::texts(r@) == config_places(
            host,
            list::optional_str(working),
            list::optional_str(executable),
            list::optional_str(xdg),
            list::optional_str(appdata),
            list::optional_str(home),
        ),
{
    let mut out: Vec<String> = Vec::new();
    assert(list::texts(out@) == Seq::<Seq<char>>::empty());
    let beside = match executable {
        Some(file) => path::parent_of(host, file),
        None => None,
    };
    add_file(host, &mut out, working);
    add_file(host, &mut out, list::borrowed(&beside));
    add_file(host, &mut out, list::borrowed(&xdg_directory(host, xdg)));
    add_file(host, &mut out, list::borrowed(&platform_directory(host, appdata, home)));
    out
}

} // verus!
